//! Sequences of characters: splitting into lines, joining, and the byte
//! offsets that UTF-8 gives to character positions.
//!
//! Every text in this crate is modelled as a `Seq<char>`; positions are counted
//! in characters. Byte offsets appear only where a slice of a `str` is taken.

use vstd::prelude::*;
use vstd::utf8::*;

verus! {

// ---------------------------------------------------------------------------
// Model
// ---------------------------------------------------------------------------

/// The characters of every string of a sequence.
pub open spec fn texts(strings: Seq<String>) -> Seq<Seq<char>> {
    Seq::new(strings.len(), |i: int| strings[i]@)
}

/// `s` cut at every line feed. There is one more piece than there are line
/// feeds, so the result is never empty.
pub open spec fn split_newlines(s: Seq<char>) -> Seq<Seq<char>>
    decreases s.len(),
{
    if s.len() == 0 {
        seq![Seq::<char>::empty()]
    } else {
        let before = split_newlines(s.drop_last());
        if s.last() == '\n' {
            before.push(Seq::<char>::empty())
        } else {
            before.drop_last().push(before.last().push(s.last()))
        }
    }
}

/// `line` without the carriage return that may precede its line feed.
pub open spec fn strip_cr(line: Seq<char>) -> Seq<char> {
    if line.len() > 0 && line.last() == '\r' {
        line.drop_last()
    } else {
        line
    }
}

/// The lines of `s`: each one ended by a line feed or by a carriage return and
/// a line feed, which are not part of it; a last line without an ending counts
/// only when it is not empty.
pub open spec fn str_lines(s: Seq<char>) -> Seq<Seq<char>> {
    let pieces = split_newlines(s);
    let ended = Seq::new((pieces.len() - 1) as nat, |i: int| strip_cr(pieces[i]));
    if pieces.last().len() > 0 {
        ended.push(pieces.last())
    } else {
        ended
    }
}

/// The strings of `parts` one after the other, with `sep` between two
/// neighbours.
pub open spec fn join(parts: Seq<Seq<char>>, sep: Seq<char>) -> Seq<char>
    decreases parts.len(),
{
    if parts.len() == 0 {
        Seq::<char>::empty()
    } else if parts.len() == 1 {
        parts[0]
    } else {
        join(parts.drop_last(), sep) + sep + parts.last()
    }
}

/// The number of characters of `parts`, with one more for the end of each.
pub open spec fn ended_len(parts: Seq<Seq<char>>) -> int
    decreases parts.len(),
{
    if parts.len() == 0 {
        0
    } else {
        ended_len(parts.drop_last()) + parts.last().len() + 1
    }
}

/// The separator that turns lines back into one text.
pub open spec fn newline() -> Seq<char> {
    seq!['\n']
}

/// The number of bytes that the first `k` characters of `s` take in UTF-8.
pub open spec fn byte_offset(s: Seq<char>, k: int) -> nat {
    encode_utf8(s.take(k)).len()
}

/// The Unicode property `White_Space`.
pub open spec fn is_white_space(c: char) -> bool {
    ||| '\u{9}' <= c <= '\u{d}'
    ||| c == ' '
    ||| c == '\u{85}'
    ||| c == '\u{a0}'
    ||| c == '\u{1680}'
    ||| '\u{2000}' <= c <= '\u{200a}'
    ||| c == '\u{2028}'
    ||| c == '\u{2029}'
    ||| c == '\u{202f}'
    ||| c == '\u{205f}'
    ||| c == '\u{3000}'
}

/// Whether `s` holds nothing but white space.
pub open spec fn is_blank(s: Seq<char>) -> bool {
    forall|i: int| 0 <= i < s.len() ==> is_white_space(#[trigger] s[i])
}

/// The smaller of two numbers.
pub open spec fn least(a: int, b: int) -> int {
    if a <= b {
        a
    } else {
        b
    }
}

/// The larger of two numbers.
pub open spec fn greatest(a: int, b: int) -> int {
    if a >= b {
        a
    } else {
        b
    }
}

// ---------------------------------------------------------------------------
// Laws
// ---------------------------------------------------------------------------

/// Joining the pieces of a text with line feeds gives the text back.
pub proof fn law_join_undoes_split(s: Seq<char>)
    ensures
        split_newlines(s).len() > 0,
        join(split_newlines(s), newline()) == s,
    decreases s.len(),
{
    if s.len() > 0 {
        let before = split_newlines(s.drop_last());
        law_join_undoes_split(s.drop_last());
        if s.last() == '\n' {
            assert(before.push(Seq::<char>::empty()).drop_last() =~= before);
            assert(join(before, newline()) + newline() + Seq::<char>::empty() =~= s);
        } else {
            let grown = before.drop_last().push(before.last().push(s.last()));
            assert(grown.drop_last() =~= before.drop_last());
            if before.len() == 1 {
                assert(join(grown, newline()) =~= s);
            } else {
                assert(join(grown, newline()) =~= join(before, newline()).push(s.last()));
                assert(s.drop_last().push(s.last()) =~= s);
            }
        }
    }
}

/// No piece of a split text holds a line feed.
pub proof fn law_pieces_hold_no_newline(s: Seq<char>)
    ensures
        forall|i: int, j: int|
            0 <= i < split_newlines(s).len() && 0 <= j < split_newlines(s)[i].len()
                ==> #[trigger] split_newlines(s)[i][j] != '\n',
    decreases s.len(),
{
    if s.len() > 0 {
        law_pieces_hold_no_newline(s.drop_last());
        law_join_undoes_split(s.drop_last());
        let before = split_newlines(s.drop_last());
        let after = split_newlines(s);
        assert forall|i: int, j: int|
            0 <= i < after.len() && 0 <= j < after[i].len() implies #[trigger] after[i][j]
            != '\n' by {
            if i < before.len() - 1 {
                assert(after[i] == before[i]);
                assert(before[i][j] != '\n');
            } else if s.last() == '\n' {
                if i < before.len() {
                    assert(before[i][j] != '\n');
                }
            } else if j < before.last().len() {
                assert(before[before.len() - 1][j] != '\n');
            }
        }
    }
}

/// Splitting what was joined with line feeds gives the parts back, as long as
/// there is one and none of them holds a line feed.
pub proof fn law_split_undoes_join(parts: Seq<Seq<char>>)
    requires
        parts.len() > 0,
        forall|i: int, j: int|
            0 <= i < parts.len() && 0 <= j < parts[i].len() ==> #[trigger] parts[i][j] != '\n',
    ensures
        split_newlines(join(parts, newline())) == parts,
    decreases parts.len(),
{
    if parts.len() == 1 {
        lemma_split_append(Seq::<char>::empty(), parts[0]);
        assert(Seq::<char>::empty() + parts[0] =~= parts[0]);
        assert(split_newlines(parts[0]) =~= parts);
    } else {
        let rest = parts.drop_last();
        assert forall|i: int, j: int| 0 <= i < rest.len() && 0 <= j < rest[i].len() implies
            #[trigger] rest[i][j] != '\n' by {
            assert(parts[i][j] != '\n');
        }
        law_split_undoes_join(rest);
        let head = join(rest, newline()) + newline();
        assert(head.drop_last() =~= join(rest, newline()));
        assert(split_newlines(head) == rest.push(Seq::<char>::empty()));
        assert forall|j: int| 0 <= j < parts.last().len() implies #[trigger] parts.last()[j]
            != '\n' by {
            assert(parts[parts.len() - 1][j] != '\n');
        }
        lemma_split_append(head, parts.last());
        assert(Seq::<char>::empty() + parts.last() =~= parts.last());
        assert(rest.push(Seq::<char>::empty()).drop_last() =~= rest);
        assert(rest.push(parts.last()) =~= parts);
    }
}

/// Appending a text without line feeds lengthens the last piece only.
pub proof fn lemma_split_append(s: Seq<char>, t: Seq<char>)
    requires
        forall|j: int| 0 <= j < t.len() ==> #[trigger] t[j] != '\n',
    ensures
        split_newlines(s).len() > 0,
        split_newlines(s + t) == split_newlines(s).drop_last().push(split_newlines(s).last() + t),
    decreases t.len(),
{
    law_join_undoes_split(s);
    let pieces = split_newlines(s);
    if t.len() == 0 {
        assert(s + t =~= s);
        assert(pieces.last() + t =~= pieces.last());
        assert(pieces.drop_last().push(pieces.last()) =~= pieces);
    } else {
        assert forall|j: int| 0 <= j < t.drop_last().len() implies #[trigger] t.drop_last()[j]
            != '\n' by {
            assert(t[j] != '\n');
        }
        lemma_split_append(s, t.drop_last());
        assert((s + t).drop_last() =~= s + t.drop_last());
        assert((s + t).last() == t[t.len() - 1]);
        let mid = pieces.drop_last().push(pieces.last() + t.drop_last());
        assert(mid.drop_last() =~= pieces.drop_last());
        assert((pieces.last() + t.drop_last()).push(t.last()) =~= pieces.last() + t);
    }
}

/// The pieces of a text hold its characters, a line feed behind each but the
/// last.
proof fn lemma_split_len(s: Seq<char>)
    ensures
        ended_len(split_newlines(s)) == s.len() + 1,
    decreases s.len(),
{
    let pieces = split_newlines(s);
    if s.len() == 0 {
        assert(ended_len(pieces.drop_last()) == 0);
    } else {
        lemma_split_len(s.drop_last());
        law_join_undoes_split(s.drop_last());
        let before = split_newlines(s.drop_last());
        if s.last() == '\n' {
            assert(pieces.drop_last() =~= before);
        } else {
            assert(pieces.drop_last() =~= before.drop_last());
        }
    }
}

/// Taking characters away from parts makes them no longer.
pub proof fn lemma_ended_len_less(a: Seq<Seq<char>>, b: Seq<Seq<char>>)
    requires
        a.len() == b.len(),
        forall|i: int| 0 <= i < a.len() ==> (#[trigger] a[i]).len() <= b[i].len(),
    ensures
        ended_len(a) <= ended_len(b),
    decreases a.len(),
{
    if a.len() > 0 {
        lemma_ended_len_less(a.drop_last(), b.drop_last());
        assert(a.last().len() <= b.last().len());
    }
}

/// The lines of a text hold no more than the text, each with its end but
/// perhaps the last.
pub proof fn lemma_str_lines_len(s: Seq<char>)
    ensures
        ended_len(str_lines(s)) <= s.len() + 1,
{
    let pieces = split_newlines(s);
    law_join_undoes_split(s);
    lemma_split_len(s);
    let ended = Seq::new((pieces.len() - 1) as nat, |i: int| strip_cr(pieces[i]));
    lemma_ended_len_less(ended, pieces.drop_last());
    assert(ended.push(pieces.last()).drop_last() =~= ended);
}

/// Lines hold no line feeds.
pub proof fn lemma_lines_hold_no_newline(s: Seq<char>)
    ensures
        forall|i: int, j: int|
            0 <= i < str_lines(s).len() && 0 <= j < str_lines(s)[i].len() ==> #[trigger] str_lines(
                s,
            )[i][j] != '\n',
{
    law_pieces_hold_no_newline(s);
    law_join_undoes_split(s);
    let pieces = split_newlines(s);
    assert forall|i: int, j: int|
        0 <= i < str_lines(s).len() && 0 <= j < str_lines(s)[i].len() implies #[trigger] str_lines(
        s,
    )[i][j] != '\n' by {
        assert(str_lines(s)[i][j] == pieces[i][j]);
    }
}

/// A text without line feeds is its only line, unless it is empty.
pub proof fn lemma_single_line(s: Seq<char>)
    requires
        forall|j: int| 0 <= j < s.len() ==> #[trigger] s[j] != '\n',
    ensures
        str_lines(s) == (if s.len() == 0 {
            Seq::<Seq<char>>::empty()
        } else {
            seq![s]
        }),
{
    assert(Seq::<char>::empty() + s =~= s);
    lemma_split_append(Seq::<char>::empty(), s);
    assert(split_newlines(s) =~= seq![s]);
}

/// Joining keeps every part and puts the separator between two neighbours, and
/// nowhere else: what is joined in two portions has one separator between them.
pub proof fn law_join_puts_separators_between(
    a: Seq<Seq<char>>,
    b: Seq<Seq<char>>,
    part: Seq<char>,
    sep: Seq<char>,
)
    ensures
        join(Seq::<Seq<char>>::empty(), sep).len() == 0,
        join(seq![part], sep) == part,
        a.len() > 0 && b.len() > 0 ==> join(a + b, sep) == join(a, sep) + sep + join(b, sep),
    decreases b.len(),
{
    if a.len() > 0 && b.len() > 0 {
        let less = b.drop_last();
        assert((a + b).drop_last() =~= a + less);
        assert((a + b).last() == b.last());
        if less.len() == 0 {
            assert(a + less =~= a);
        } else {
            law_join_puts_separators_between(a, less, part, sep);
            assert(join(a, sep) + sep + join(less, sep) + sep + b.last() =~= join(a, sep) + sep + (
            join(less, sep) + sep + b.last()));
        }
    }
}

/// The lines of a text are its pieces between line feeds, without a carriage return
/// before a line feed. Nothing else is lost, and no line is: only an empty piece
/// behind the last line feed is not one.
pub proof fn law_lines_lose_only_their_endings(s: Seq<char>, i: int)
    requires
        0 <= i < split_newlines(s).len(),
    ensures
        ({
            let pieces = split_newlines(s);
            let lines = str_lines(s);
            let last = i == pieces.len() - 1;
            let returned = pieces[i].len() > 0 && pieces[i].last() == '\r';
            &&& pieces.last().len() > 0 ==> lines.len() == pieces.len()
            &&& pieces.last().len() == 0 ==> lines.len() == pieces.len() - 1
            &&& !last && returned ==> lines[i].push('\r') == pieces[i]
            &&& !last && !returned ==> lines[i] == pieces[i]
            &&& last && pieces[i].len() > 0 ==> lines[i] == pieces[i]
        }),
{
    let pieces = split_newlines(s);
    if pieces[i].len() > 0 {
        assert(pieces[i].drop_last().push(pieces[i].last()) =~= pieces[i]);
    }
}

/// A text is blank unless some character of it is not white space, and neither its
/// length nor the place of that character matters.
pub proof fn law_one_character_makes_a_text(before: Seq<char>, c: char, after: Seq<char>)
    ensures
        is_blank(before.push(c) + after) <==> is_blank(before) && is_white_space(c) && is_blank(
            after,
        ),
        is_blank(Seq::<char>::empty()),
{
    let all = before.push(c) + after;
    if is_blank(all) {
        assert forall|i: int| 0 <= i < before.len() implies is_white_space(
            #[trigger] before[i],
        ) by {
            assert(all[i] == before[i]);
        }
        assert(all[before.len() as int] == c);
        assert forall|i: int| 0 <= i < after.len() implies is_white_space(#[trigger] after[i]) by {
            assert(all[before.len() + 1 + i] == after[i]);
        }
    }
}

/// Cutting the bytes of a text where a character starts cuts the text there: the
/// bytes before are those of the characters before, and the rest those of the rest.
pub proof fn law_bytes_are_cut_between_characters(s: Seq<char>, k: int)
    requires
        0 <= k <= s.len(),
    ensures
        byte_offset(s, k) <= encode_utf8(s).len(),
        encode_utf8(s).take(byte_offset(s, k) as int) == encode_utf8(s.take(k)),
        encode_utf8(s).skip(byte_offset(s, k) as int) == encode_utf8(s.skip(k)),
{
    lemma_encode_add(s.take(k), s.skip(k));
    assert(s.take(k) + s.skip(k) =~= s);
    assert(encode_utf8(s).take(byte_offset(s, k) as int) =~= encode_utf8(s.take(k)));
    assert(encode_utf8(s).skip(byte_offset(s, k) as int) =~= encode_utf8(s.skip(k)));
}

// ---------------------------------------------------------------------------
// UTF-8
// ---------------------------------------------------------------------------

proof fn lemma_encode_add(a: Seq<char>, b: Seq<char>)
    ensures
        encode_utf8(a + b) == encode_utf8(a) + encode_utf8(b),
    decreases a.len(),
{
    if a.len() == 0 {
        assert(a + b =~= b);
        assert(encode_utf8(a) + encode_utf8(b) =~= encode_utf8(b));
    } else {
        assert((a + b).drop_first() =~= a.drop_first() + b);
        lemma_encode_add(a.drop_first(), b);
        assert(encode_utf8(a + b) =~= encode_utf8(a) + encode_utf8(b));
    }
}

/// The bytes between two positions are those of the characters between them.
pub proof fn lemma_byte_distance(s: Seq<char>, j: int, k: int)
    requires
        0 <= j <= k <= s.len(),
    ensures
        byte_offset(s, k) == byte_offset(s, j) + encode_utf8(s.subrange(j, k)).len(),
{
    assert(s.take(k) =~= s.take(j) + s.subrange(j, k));
    lemma_encode_add(s.take(j), s.subrange(j, k));
}

/// Every character takes at least one byte.
proof fn lemma_chars_fit(s: Seq<char>)
    ensures
        s.len() <= encode_utf8(s).len(),
    decreases s.len(),
{
    if s.len() > 0 {
        lemma_chars_fit(s.drop_last());
        lemma_byte_offset_step(s, s.len() - 1);
        assert(s.take(s.len() - 1) =~= s.drop_last());
        assert(s.take(s.len() as int) =~= s);
    }
}

/// Byte offsets of successive characters differ by the encoded length of the
/// character between them.
pub proof fn lemma_byte_offset_step(s: Seq<char>, k: int)
    requires
        0 <= k < s.len(),
    ensures
        byte_offset(s, 0) == 0,
        byte_offset(s, k + 1) == byte_offset(s, k) + encode_scalar(s[k] as u32).len(),
{
    assert(s.take(0) =~= Seq::<char>::empty());
    assert(s.take(k + 1) =~= s.take(k) + seq![s[k]]);
    lemma_encode_add(s.take(k), seq![s[k]]);
    assert(seq![s[k]].drop_first() =~= Seq::<char>::empty());
    reveal_with_fuel(encode_utf8, 2);
    assert(encode_utf8(seq![s[k]]) =~= encode_scalar(s[k] as u32));
}

/// Byte offsets grow with the character position, up to the length of the
/// whole encoding.
pub proof fn lemma_byte_offset_order(s: Seq<char>, j: int, k: int)
    requires
        0 <= j <= k <= s.len(),
    ensures
        byte_offset(s, j) <= byte_offset(s, k),
        byte_offset(s, s.len() as int) == encode_utf8(s).len(),
    decreases k - j,
{
    assert(s.take(s.len() as int) =~= s);
    if j < k {
        lemma_byte_offset_order(s, j, k - 1);
        lemma_byte_offset_step(s, k - 1);
    }
}

/// The bytes between two byte offsets are the encoding of the characters
/// between the two positions.
proof fn lemma_bytes_between(s: Seq<char>, j: int, k: int)
    requires
        0 <= j <= k <= s.len(),
    ensures
        byte_offset(s, j) <= byte_offset(s, k) <= encode_utf8(s).len(),
        encode_utf8(s).subrange(byte_offset(s, j) as int, byte_offset(s, k) as int)
            == encode_utf8(s.subrange(j, k)),
{
    lemma_byte_offset_order(s, j, k);
    lemma_byte_offset_order(s, k, s.len() as int);
    assert(s.take(k) =~= s.take(j) + s.subrange(j, k));
    lemma_encode_add(s.take(j), s.subrange(j, k));
    assert(s =~= s.take(k) + s.skip(k));
    lemma_encode_add(s.take(k), s.skip(k));
    assert(encode_utf8(s).subrange(byte_offset(s, j) as int, byte_offset(s, k) as int)
        =~= encode_utf8(s.subrange(j, k)));
}

/// Character positions are character boundaries of the encoding.
proof fn lemma_boundary(s: Seq<char>, k: int)
    requires
        0 <= k <= s.len(),
    ensures
        valid_utf8(encode_utf8(s)),
        is_char_boundary(encode_utf8(s), byte_offset(s, k) as int),
    decreases s.len(),
{
    encode_utf8_valid_utf8(s);
    if k == 0 {
        assert(s.take(0) =~= Seq::<char>::empty());
    } else {
        let rest = s.drop_first();
        encode_utf8_first_scalar(s);
        lemma_boundary(rest, k - 1);
        assert(s.take(k) =~= seq![s[0]] + rest.take(k - 1));
        lemma_encode_add(seq![s[0]], rest.take(k - 1));
        assert(seq![s[0]].drop_first() =~= Seq::<char>::empty());
        reveal_with_fuel(encode_utf8, 2);
        assert(encode_utf8(seq![s[0]]) =~= encode_scalar(s[0] as u32));
        assert(pop_first_scalar(encode_utf8(s)) =~= encode_utf8(rest));
        lemma_byte_offset_order(s, k, s.len() as int);
        assert(byte_offset(s, k) > 0);
    }
}

/// Texts with the same encoding are the same.
pub proof fn lemma_encode_injective(a: Seq<char>, b: Seq<char>)
    requires
        encode_utf8(a) == encode_utf8(b),
    ensures
        a == b,
{
    encode_utf8_decode_utf8(a);
    encode_utf8_decode_utf8(b);
}

// ---------------------------------------------------------------------------
// Executable helpers
// ---------------------------------------------------------------------------

/// `String::push` of std appends one character to the end of the string.
pub assume_specification[ String::push ](s: &mut String, ch: char)
    ensures
        final(s)@ == old(s)@.push(ch),
;

/// The number of bytes that `c` takes in UTF-8.
pub(crate) fn utf8_len(c: char) -> (r: usize)
    ensures
        r == encode_scalar(c as u32).len(),
        1 <= r <= 4,
{
    let code: u32 = c as u32;
    if code <= 0x7F {
        1
    } else if code <= 0x7FF {
        2
    } else if code <= 0xFFFF {
        3
    } else {
        4
    }
}

/// The part of `s` between two byte offsets that are character positions.
pub(crate) fn slice_between<'a>(
    s: &'a str,
    from: usize,
    to: usize,
    Ghost(a): Ghost<int>,
    Ghost(b): Ghost<int>,
) -> (r: &'a str)
    requires
        0 <= a <= b <= s@.len(),
        from == byte_offset(s@, a),
        to == byte_offset(s@, b),
    ensures
        r@ == s@.subrange(a, b),
{
    proof {
        lemma_bytes_between(s@, a, b);
        lemma_bytes_between(s@, a, s@.len() as int);
        lemma_byte_offset_order(s@, s@.len() as int, s@.len() as int);
        lemma_boundary(s@, a);
    }
    let ghost tail = s@.subrange(a, s@.len() as int);
    let (_, rest) = s.split_at(from);
    proof {
        assert(encode_utf8(s@).subrange(from as int, encode_utf8(s@).len() as int)
            == encode_utf8(tail));
        lemma_encode_injective(rest@, tail);
        lemma_boundary(rest@, b - a);
        lemma_bytes_between(rest@, 0, b - a);
        assert(rest@.subrange(0, b - a) =~= s@.subrange(a, b));
        assert(rest@.take(0) =~= Seq::<char>::empty());
        assert(rest@.take(b - a) =~= s@.subrange(a, b));
        assert(byte_offset(rest@, b - a) == to - from);
    }
    let (mid, _) = rest.split_at(to - from);
    proof {
        lemma_encode_injective(mid@, s@.subrange(a, b));
    }
    mid
}

/// The number of bytes of `s`, which is no smaller than that of its characters.
pub(crate) fn byte_len(s: &str) -> (r: usize)
    ensures
        r == encode_utf8(s@).len(),
        s@.len() <= r,
{
    proof {
        lemma_chars_fit(s@);
    }
    s.as_bytes().len()
}

/// Appends to `out` the characters of `s` from position `from` up to, but not
/// including, position `to`; positions past the end count as the end.
pub(crate) fn push_chars(out: &mut String, s: &str, from: usize, to: usize)
    requires
        from <= to,
    ensures
        final(out)@ == old(out)@ + s@.subrange(
            least(from as int, s@.len() as int),
            least(to as int, s@.len() as int),
        ),
{
    let ghost start = out@;
    let ghost lo = least(from as int, s@.len() as int);
    let mut i: usize = 0;
    let mut it = s.chars();
    proof {
        assert(s@.skip(0) =~= s@);
        assert(s@.subrange(lo, lo) =~= Seq::<char>::empty());
        assert(start + Seq::<char>::empty() =~= start);
    }
    while i < to
        invariant
            i <= to,
            i <= s@.len(),
            from <= to,
            start == old(out)@,
            lo == least(from as int, s@.len() as int),
            vstd::std_specs::iter::IteratorSpec::remaining(&it) == s@.skip(i as int),
            out@ == start + s@.subrange(lo, greatest(lo, i as int)),
        decreases to - i,
    {
        match it.next() {
            Some(c) => {
                proof {
                    assert(s@.skip(i as int)[0] == s@[i as int]);
                    assert(s@.skip(i as int).drop_first() =~= s@.skip(i + 1));
                }
                if i >= from {
                    out.push(c);
                    proof {
                        assert(s@.subrange(lo, i + 1) =~= s@.subrange(lo, i as int).push(c));
                    }
                }
                i = i + 1;
            },
            None => {
                assert(s@.skip(i as int).len() == s@.len() - i);
                return;
            },
        }
    }
}

/// Appends to `out` the characters of `s` from position `from` on.
pub(crate) fn push_from(out: &mut String, s: &str, from: usize)
    ensures
        final(out)@ == old(out)@ + s@.skip(least(from as int, s@.len() as int)),
{
    let bound: usize = byte_len(s);
    push_chars(
        out,
        s,
        from,
        if from < bound {
            bound
        } else {
            from
        },
    );
    assert(s@.subrange(least(from as int, s@.len() as int), s@.len() as int) =~= s@.skip(
        least(from as int, s@.len() as int),
    ));
}

/// The characters of `s` from position `from` up to, but not including,
/// position `to`; positions past the end count as the end.
pub(crate) fn substring(s: &str, from: usize, to: usize) -> (r: String)
    requires
        from <= to,
    ensures
        r@ == s@.subrange(
            least(from as int, s@.len() as int),
            least(to as int, s@.len() as int),
        ),
{
    let mut out = String::new();
    push_chars(&mut out, s, from, to);
    assert(out@ =~= s@.subrange(
        least(from as int, s@.len() as int),
        least(to as int, s@.len() as int),
    ));
    out
}

/// `s` cut at every line feed.
pub(crate) fn split_text(s: &str) -> (r: Vec<String>)
    ensures
        texts(r@) == split_newlines(s@),
        r@.len() > 0,
{
    let mut out: Vec<String> = Vec::new();
    let mut piece = String::new();
    proof {
        assert(s@.take(0) =~= Seq::<char>::empty());
        assert(texts(out@).push(piece@) =~= split_newlines(s@.take(0)));
    }
    for c in it: s.chars()
        invariant
            it.seq() == s@,
            texts(out@).push(piece@) == split_newlines(s@.take(it.index() as int)),
    {
        let ghost k = it.index() as int;
        let ghost before = texts(out@).push(piece@);
        proof {
            assert(s@.take(k + 1).drop_last() =~= s@.take(k));
            assert(before.drop_last() =~= texts(out@));
        }
        if c == '\n' {
            out.push(piece);
            piece = String::new();
            proof {
                assert(texts(out@) =~= before);
            }
        } else {
            piece.push(c);
        }
    }
    let ghost done = texts(out@);
    out.push(piece);
    proof {
        assert(s@.take(s@.len() as int) =~= s@);
        assert(texts(out@) =~= done.push(piece@));
    }
    out
}

/// The lines of `s`.
pub(crate) fn str_line_strings(s: &str) -> (r: Vec<String>)
    ensures
        texts(r@) == str_lines(s@),
{
    let mut pieces = split_text(s);
    let ghost all = texts(pieces@);
    let mut out: Vec<String> = Vec::new();
    let count: usize = pieces.len() - 1;
    let mut i: usize = 0;
    while i < count
        invariant
            i <= count,
            count + 1 == pieces.len(),
            all == texts(pieces@),
            out@.len() == i,
            forall|k: int| 0 <= k < i ==> (#[trigger] out@[k])@ == strip_cr(all[k]),
        decreases count - i,
    {
        let piece = &pieces[i];
        let len: usize = piece.as_str().unicode_len();
        assert(all[i as int] == piece@);
        if len > 0 && piece.as_str().get_char(len - 1) == '\r' {
            out.push(substring(piece.as_str(), 0, len - 1));
            assert(piece@.subrange(0, len - 1) =~= piece@.drop_last());
        } else {
            out.push(piece.clone());
        }
        i = i + 1;
    }
    assert(texts(out@) =~= Seq::new((all.len() - 1) as nat, |k: int| strip_cr(all[k])));
    let ghost ended = texts(out@);
    match pieces.pop() {
        Some(last) => {
            assert(last@ == all.last());
            if !last.as_str().is_empty() {
                out.push(last);
                assert(texts(out@) =~= ended.push(all.last()));
            }
        },
        None => {},
    }
    out
}

/// The strings of `parts` with `sep` between two neighbours.
pub(crate) fn join_strings(parts: &Vec<String>, sep: &str) -> (r: String)
    ensures
        r@ == join(texts(parts@), sep@),
{
    let mut out = String::new();
    let ghost all = texts(parts@);
    let mut i: usize = 0;
    while i < parts.len()
        invariant
            i <= parts.len(),
            all == texts(parts@),
            out@ == join(all.take(i as int), sep@),
        decreases parts.len() - i,
    {
        let ghost before = out@;
        proof {
            assert(all.take(i + 1).drop_last() =~= all.take(i as int));
        }
        if i > 0 {
            out.append(sep);
        }
        out.append(parts[i].as_str());
        proof {
            if i == 0 {
                assert(out@ =~= all[0]);
            } else {
                assert(out@ =~= before + sep@ + all[i as int]);
            }
        }
        i = i + 1;
    }
    assert(all.take(parts@.len() as int) =~= all);
    out
}

/// Whether `c` has the Unicode property `White_Space`.
pub(crate) fn white_space(c: char) -> (r: bool)
    ensures
        r == is_white_space(c),
{
    ('\u{9}' <= c && c <= '\u{d}') || c == ' ' || c == '\u{85}' || c == '\u{a0}' || c == '\u{1680}'
        || ('\u{2000}' <= c && c <= '\u{200a}') || c == '\u{2028}' || c == '\u{2029}' || c
        == '\u{202f}' || c == '\u{205f}' || c == '\u{3000}'
}

/// Whether `s` holds nothing but white space.
pub(crate) fn blank(s: &str) -> (r: bool)
    ensures
        r == is_blank(s@),
{
    for c in it: s.chars()
        invariant
            it.seq() == s@,
            forall|i: int| 0 <= i < it.index() ==> is_white_space(#[trigger] s@[i]),
    {
        if !white_space(c) {
            assert(!is_white_space(s@[it.index() as int]));
            return false;
        }
    }
    true
}

} // verus!
