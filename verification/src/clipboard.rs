//! Copying to the system clipboard.
//!
//! A text is first handed to a clipboard tool of the desktop, whichever is there
//! and accepts it. Where none does, as in a remote session, the terminal itself
//! is asked to set the clipboard, by the OSC 52 escape sequence. This module
//! says which tools to try, in what order, and what the sequence is; running a
//! tool and writing to the terminal are left to the application.

use base64::Engine;
use base64::engine::general_purpose::STANDARD;
use vstd::prelude::*;
use vstd::utf8::encode_utf8;

use crate::text::lemma_encode_injective;

verus! {

// ---------------------------------------------------------------------------
// Base64
// ---------------------------------------------------------------------------

/// The character for six bits in the standard base64 alphabet.
pub open spec fn base64_symbol(bits: int) -> char {
    if bits < 26 {
        ('A' as int + bits) as char
    } else if bits < 52 {
        ('a' as int + bits - 26) as char
    } else if bits < 62 {
        ('0' as int + bits - 52) as char
    } else if bits == 62 {
        '+'
    } else {
        '/'
    }
}

/// Byte `i`, zero past the end.
pub open spec fn byte_or_zero(bytes: Seq<u8>, i: int) -> int {
    if i < bytes.len() {
        bytes[i] as int
    } else {
        0
    }
}

/// The 24 bits of the `g`-th three bytes.
pub open spec fn base64_group(bytes: Seq<u8>, g: int) -> int {
    byte_or_zero(bytes, 3 * g) * 0x1_0000 + byte_or_zero(bytes, 3 * g + 1) * 0x100 + byte_or_zero(
        bytes,
        3 * g + 2,
    )
}

/// The `j`-th six of 24 bits.
pub open spec fn six_bits(group: int, j: int) -> int {
    if j == 0 {
        group / 0x4_0000
    } else if j == 1 {
        (group / 0x1000) % 0x40
    } else if j == 2 {
        (group / 0x40) % 0x40
    } else {
        group % 0x40
    }
}

/// Character `i` of the base64 form of `bytes`: a symbol, or `=` where no byte
/// reaches.
pub open spec fn base64_char(bytes: Seq<u8>, i: int) -> char {
    if 3 * (i / 4) + i % 4 > bytes.len() {
        '='
    } else {
        base64_symbol(six_bits(base64_group(bytes, i / 4), i % 4))
    }
}

/// The number of characters of the base64 form of `len` bytes.
pub open spec fn base64_len(len: int) -> int {
    4 * ((len + 2) / 3)
}

/// `bytes` in base64, in the standard alphabet and with padding.
pub open spec fn base64(bytes: Seq<u8>) -> Seq<char> {
    Seq::new(base64_len(bytes.len() as int) as nat, |i: int| base64_char(bytes, i))
}

/// `base64`'s `Engine::encode` on the engine `STANDARD`: the bytes in the
/// standard alphabet of RFC 4648, padded. It needs room for the result in one
/// allocation.
#[verifier::external_body]
fn encode_base64(bytes: &[u8]) -> (r: String)
    requires
        base64_len(bytes@.len() as int) <= isize::MAX,
    ensures
        r@ == base64(bytes@),
{
    STANDARD.encode(bytes)
}

// ---------------------------------------------------------------------------
// The escape sequence
// ---------------------------------------------------------------------------

/// `s` with every escape character twice.
pub open spec fn escapes_doubled(s: Seq<char>) -> Seq<char>
    decreases s.len(),
{
    if s.len() == 0 {
        s
    } else if s.last() == '\u{1b}' {
        escapes_doubled(s.drop_last()).push('\u{1b}').push('\u{1b}')
    } else {
        escapes_doubled(s.drop_last()).push(s.last())
    }
}

/// The sequence that sets the clipboard to `text`.
pub open spec fn osc52_inner(text: Seq<char>) -> Seq<char> {
    ("\u{1b}]52;c;"@ + base64(encode_utf8(text))).push('\u{7}')
}

/// The sequence that sets the clipboard to `text`, wrapped for `tmux` to hand it
/// on to the terminal.
pub open spec fn osc52(text: Seq<char>, in_tmux: bool) -> Seq<char> {
    if in_tmux {
        "\u{1b}Ptmux;"@ + escapes_doubled(osc52_inner(text)) + "\u{1b}\\"@
    } else {
        osc52_inner(text)
    }
}

/// The OSC 52 escape sequence that asks the terminal to set the system clipboard
/// to `text`. Inside `tmux` it has to be wrapped, with its escape characters
/// doubled, or `tmux` swallows it.
pub fn osc52_sequence(text: &str, in_tmux: bool) -> (r: String)
    requires
        base64_len(encode_utf8(text@).len() as int) <= isize::MAX,
    ensures
        r@ == osc52(text@, in_tmux),
{
    let encoded = encode_base64(text.as_bytes());
    let mut inner = String::new();
    inner.append("\u{1b}]52;c;");
    inner.append(encoded.as_str());
    inner.push('\u{7}');
    assert(inner@ =~= osc52_inner(text@));
    if !in_tmux {
        return inner;
    }
    let mut out = String::new();
    out.append("\u{1b}Ptmux;");
    let ghost head = "\u{1b}Ptmux;"@;
    let ghost whole = inner@;
    assert(whole.take(0) =~= Seq::<char>::empty());
    assert(out@ =~= head + escapes_doubled(whole.take(0)));
    for c in it: inner.as_str().chars()
        invariant
            it.seq() == whole,
            out@ == head + escapes_doubled(whole.take(it.index() as int)),
    {
        let ghost k = it.index() as int;
        let ghost before = escapes_doubled(whole.take(k));
        proof {
            assert(whole.take(k + 1).drop_last() =~= whole.take(k));
            assert(whole.take(k + 1).last() == c);
        }
        out.push(c);
        if c == '\u{1b}' {
            out.push(c);
            assert(out@ =~= head + before.push(c).push(c));
        } else {
            assert(out@ =~= head + before.push(c));
        }
    }
    assert(whole.take(whole.len() as int) =~= whole);
    out.append("\u{1b}\\");
    out
}

// ---------------------------------------------------------------------------
// Tools
// ---------------------------------------------------------------------------

/// A clipboard tool: its name and its arguments.
pub type Tool = (&'static str, &'static [&'static str]);

/// What a tool's name and arguments say.
pub open spec fn tool_words(tool: Tool) -> (Seq<char>, Seq<Seq<char>>) {
    (tool.0@, Seq::new(tool.1@.len(), |i: int| tool.1@[i]@))
}

/// The tools to try, in order: that of Wayland, those of X11, that of macOS, each
/// where it is there, and last the way from Linux into the Windows clipboard,
/// which does no harm elsewhere.
pub open spec fn tools_to_try(has_wayland: bool, has_x11: bool, is_macos: bool) -> Seq<
    (Seq<char>, Seq<Seq<char>>),
> {
    (if has_wayland {
        seq![("wl-copy"@, Seq::<Seq<char>>::empty())]
    } else {
        Seq::<(Seq<char>, Seq<Seq<char>>)>::empty()
    }) + (if has_x11 {
        seq![
            ("xclip"@, seq!["-selection"@, "clipboard"@]),
            ("xsel"@, seq!["--clipboard"@, "--input"@]),
        ]
    } else {
        Seq::<(Seq<char>, Seq<Seq<char>>)>::empty()
    }) + (if is_macos {
        seq![("pbcopy"@, Seq::<Seq<char>>::empty())]
    } else {
        Seq::<(Seq<char>, Seq<Seq<char>>)>::empty()
    }) + seq![("clip.exe"@, Seq::<Seq<char>>::empty())]
}

/// What a sequence of tools says.
pub open spec fn all_tool_words(tools: Seq<Tool>) -> Seq<(Seq<char>, Seq<Seq<char>>)> {
    Seq::new(tools.len(), |i: int| tool_words(tools[i]))
}

/// The clipboard tools to try, in order, given what desktop there is.
pub fn clipboard_candidates(has_wayland: bool, has_x11: bool, is_macos: bool) -> (r: Vec<Tool>)
    ensures
        all_tool_words(r@) == tools_to_try(has_wayland, has_x11, is_macos),
{
    let mut out: Vec<Tool> = Vec::new();
    let ghost none = Seq::<Seq<char>>::empty();
    if has_wayland {
        out.push(("wl-copy", &[]));
        assert(tool_words(out@.last()).1 =~= none);
    }
    if has_x11 {
        out.push(("xclip", &["-selection", "clipboard"]));
        assert(tool_words(out@.last()).1 =~= seq!["-selection"@, "clipboard"@]);
        out.push(("xsel", &["--clipboard", "--input"]));
        assert(tool_words(out@.last()).1 =~= seq!["--clipboard"@, "--input"@]);
    }
    if is_macos {
        out.push(("pbcopy", &[]));
        assert(tool_words(out@.last()).1 =~= none);
    }
    out.push(("clip.exe", &[]));
    assert(tool_words(out@.last()).1 =~= none);
    assert(all_tool_words(out@) =~= tools_to_try(has_wayland, has_x11, is_macos));
    out
}

// ---------------------------------------------------------------------------
// Copying
// ---------------------------------------------------------------------------

/// What to do next to copy a text.
#[derive(Clone, Copy, Debug, PartialEq, Eq, Structural)]
pub enum CopyStep {
    /// Nothing: the text is copied, or there is none.
    Done,
    /// Run the tool of this number and write the text to it.
    Run(usize),
    /// Write the escape sequence to the terminal.
    WriteSequence,
}

/// The step that tries tool number `tool` of `tools`, or the terminal past the
/// last of them.
pub open spec fn try_tool(tools: usize, tool: int) -> CopyStep {
    if tool < tools {
        CopyStep::Run(tool as usize)
    } else {
        CopyStep::WriteSequence
    }
}

/// The first step of copying `text`: an empty one needs none.
pub open spec fn first_step(text: Seq<char>, tools: usize) -> CopyStep {
    if text.len() == 0 {
        CopyStep::Done
    } else {
        try_tool(tools, 0)
    }
}

/// The step behind the run of tool number `tool`.
pub open spec fn step_behind(tools: usize, tool: usize, accepted: bool) -> CopyStep {
    if accepted {
        CopyStep::Done
    } else {
        try_tool(tools, tool + 1)
    }
}

/// The first step of copying `text` with `tools` tools to try.
pub fn first_copy_step(text: &str, tools: usize) -> (r: CopyStep)
    ensures
        r == first_step(text@, tools),
{
    if text.is_empty() {
        CopyStep::Done
    } else if tools > 0 {
        CopyStep::Run(0)
    } else {
        CopyStep::WriteSequence
    }
}

/// The step after tool number `tool` of `tools` was run; `accepted` says whether
/// it started and took the text.
pub fn next_copy_step(tools: usize, tool: usize, accepted: bool) -> (r: CopyStep)
    requires
        tool < tools,
    ensures
        r == step_behind(tools, tool, accepted),
{
    if accepted {
        CopyStep::Done
    } else if tool + 1 < tools {
        CopyStep::Run(tool + 1)
    } else {
        CopyStep::WriteSequence
    }
}

// ---------------------------------------------------------------------------
// Laws
// ---------------------------------------------------------------------------

proof fn lemma_symbols_differ(a: int, b: int)
    requires
        0 <= a < 64,
        0 <= b < 64,
        base64_symbol(a) == base64_symbol(b),
    ensures
        a == b,
{
}

proof fn lemma_symbol_is_no_padding(a: int)
    requires
        0 <= a < 64,
    ensures
        base64_symbol(a) != '=',
{
}

proof fn lemma_group_bounds(bytes: Seq<u8>, g: int)
    requires
        0 <= g,
    ensures
        0 <= base64_group(bytes, g) < 0x100_0000,
        forall|j: int| 0 <= j < 4 ==> 0 <= #[trigger] six_bits(base64_group(bytes, g), j) < 64,
{
}

/// A number below two to the 24th is put together from its four sixes of bits.
proof fn lemma_bits_of_group(x: int)
    requires
        0 <= x < 0x100_0000,
    ensures
        x == six_bits(x, 0) * 0x4_0000 + six_bits(x, 1) * 0x1000 + six_bits(x, 2) * 0x40
            + six_bits(x, 3),
{
    let a = x / 0x40;
    let b = a / 0x40;
    let c = b / 0x40;
    assert(b == x / 0x1000) by {
        vstd::arithmetic::div_mod::lemma_div_denominator(x, 0x40, 0x40);
    }
    assert(c == x / 0x4_0000) by {
        vstd::arithmetic::div_mod::lemma_div_denominator(x, 0x1000, 0x40);
    }
    assert(x == a * 0x40 + six_bits(x, 3));
    assert(a == b * 0x40 + six_bits(x, 2));
    assert(b == c * 0x40 + six_bits(x, 1));
    assert(c == six_bits(x, 0));
}

/// A group is made of its four sixes of bits.
proof fn lemma_group_from_bits(x: int, y: int)
    requires
        0 <= x < 0x100_0000,
        0 <= y < 0x100_0000,
        six_bits(x, 0) == six_bits(y, 0),
        six_bits(x, 1) == six_bits(y, 1),
        six_bits(x, 2) == six_bits(y, 2),
        six_bits(x, 3) == six_bits(y, 3),
    ensures
        x == y,
{
    lemma_bits_of_group(x);
    lemma_bits_of_group(y);
}

/// Equal characters stand for equal bits.
proof fn lemma_bits_from_char(a: Seq<u8>, b: Seq<u8>, g: int, j: int)
    requires
        a.len() == b.len(),
        0 <= g,
        3 * g < a.len(),
        0 <= j < 4,
        base64_char(a, 4 * g + j) == base64_char(b, 4 * g + j),
    ensures
        six_bits(base64_group(a, g), j) == six_bits(base64_group(b, g), j),
{
    assert((4 * g + j) / 4 == g && (4 * g + j) % 4 == j);
    lemma_group_bounds(a, g);
    lemma_group_bounds(b, g);
    if 3 * g + j <= a.len() {
        lemma_symbols_differ(
            six_bits(base64_group(a, g), j),
            six_bits(base64_group(b, g), j),
        );
    }
}

proof fn lemma_same_char(a: Seq<u8>, b: Seq<u8>, i: int)
    requires
        base64(a) == base64(b),
        0 <= i < base64_len(a.len() as int),
        i < base64_len(b.len() as int),
    ensures
        base64_char(a, i) == base64_char(b, i),
{
    assert(base64(a)[i] == base64_char(a, i));
    assert(base64(b)[i] == base64_char(b, i));
}

/// The padding tells how many bytes there are.
proof fn lemma_same_len(a: Seq<u8>, b: Seq<u8>)
    requires
        base64(a) == base64(b),
    ensures
        a.len() == b.len(),
{
    let n = a.len() as int;
    let groups = (n + 2) / 3;
    assert(base64(a).len() == base64_len(n));
    assert(base64(b).len() == base64_len(b.len() as int));
    if n > 0 {
        let last = groups - 1;
        assert(3 * last < n <= 3 * last + 3);
        assert(3 * last < b.len() <= 3 * last + 3);
        lemma_padding(a, last, 2);
        lemma_padding(a, last, 3);
        lemma_padding(b, last, 2);
        lemma_padding(b, last, 3);
        lemma_same_char(a, b, 4 * last + 2);
        lemma_same_char(a, b, 4 * last + 3);
    }
}

/// Padding stands exactly where no byte reaches.
proof fn lemma_padding(bytes: Seq<u8>, g: int, j: int)
    requires
        0 <= g,
        0 <= j < 4,
    ensures
        base64_char(bytes, 4 * g + j) == '=' <==> 3 * g + j > bytes.len(),
{
    assert((4 * g + j) / 4 == g && (4 * g + j) % 4 == j);
    lemma_group_bounds(bytes, g);
    lemma_symbol_is_no_padding(six_bits(base64_group(bytes, g), j));
}

/// The bytes of a group.
proof fn lemma_group_bytes(bytes: Seq<u8>, g: int)
    requires
        0 <= g,
    ensures
        base64_group(bytes, g) / 0x1_0000 == byte_or_zero(bytes, 3 * g),
        (base64_group(bytes, g) / 0x100) % 0x100 == byte_or_zero(bytes, 3 * g + 1),
        base64_group(bytes, g) % 0x100 == byte_or_zero(bytes, 3 * g + 2),
{
}

/// The characters of a group tell its bytes.
proof fn lemma_same_group(a: Seq<u8>, b: Seq<u8>, g: int)
    requires
        base64(a) == base64(b),
        a.len() == b.len(),
        0 <= g,
        3 * g < a.len(),
    ensures
        base64_group(a, g) == base64_group(b, g),
{
    assert(4 * g + 3 < base64_len(a.len() as int));
    lemma_same_char(a, b, 4 * g + 0);
    lemma_same_char(a, b, 4 * g + 1);
    lemma_same_char(a, b, 4 * g + 2);
    lemma_same_char(a, b, 4 * g + 3);
    lemma_bits_from_char(a, b, g, 0);
    lemma_bits_from_char(a, b, g, 1);
    lemma_bits_from_char(a, b, g, 2);
    lemma_bits_from_char(a, b, g, 3);
    lemma_group_bounds(a, g);
    lemma_group_bounds(b, g);
    lemma_group_from_bits(base64_group(a, g), base64_group(b, g));
}

/// No two byte sequences have the same base64 form.
pub proof fn law_base64_tells_bytes_apart(a: Seq<u8>, b: Seq<u8>)
    requires
        base64(a) == base64(b),
    ensures
        a == b,
{
    lemma_same_len(a, b);
    assert forall|i: int| 0 <= i < a.len() implies a[i] == b[i] by {
        let g = i / 3;
        lemma_same_group(a, b, g);
        lemma_group_bytes(a, g);
        lemma_group_bytes(b, g);
        assert(i == 3 * g || i == 3 * g + 1 || i == 3 * g + 2);
        assert(byte_or_zero(a, i) == byte_or_zero(b, i));
    }
    assert(a =~= b);
}

/// Doubling the escape characters loses nothing.
proof fn lemma_doubling_tells_apart(a: Seq<char>, b: Seq<char>)
    requires
        escapes_doubled(a) == escapes_doubled(b),
    ensures
        a == b,
    decreases a.len(),
{
    let x = escapes_doubled(a);
    if a.len() == 0 {
        if b.len() > 0 {
            assert(x.len() > 0);
        }
        assert(a =~= b);
    } else {
        assert(x.len() > 0);
        assert(b.len() > 0);
        assert(x.last() == a.last());
        assert(x.last() == b.last());
        if a.last() == '\u{1b}' {
            assert(x.drop_last().drop_last() =~= escapes_doubled(a.drop_last()));
            assert(x.drop_last().drop_last() =~= escapes_doubled(b.drop_last()));
        } else {
            assert(x.drop_last() =~= escapes_doubled(a.drop_last()));
            assert(x.drop_last() =~= escapes_doubled(b.drop_last()));
        }
        lemma_doubling_tells_apart(a.drop_last(), b.drop_last());
        assert(a =~= a.drop_last().push(a.last()));
        assert(b =~= b.drop_last().push(b.last()));
    }
}

/// The escape sequence determines the text that the clipboard is set to, inside
/// `tmux` as well as outside.
pub proof fn law_sequence_tells_texts_apart(a: Seq<char>, b: Seq<char>, in_tmux: bool)
    requires
        osc52(a, in_tmux) == osc52(b, in_tmux),
    ensures
        a == b,
{
    let x = osc52_inner(a);
    let y = osc52_inner(b);
    if in_tmux {
        let head = "\u{1b}Ptmux;"@;
        let tail = "\u{1b}\\"@;
        let whole = osc52(a, true);
        let end = whole.len() - tail.len();
        assert(whole.subrange(head.len() as int, end) =~= escapes_doubled(x));
        assert(whole.subrange(head.len() as int, end) =~= escapes_doubled(y));
        lemma_doubling_tells_apart(x, y);
    }
    let head = "\u{1b}]52;c;"@;
    assert(x.subrange(head.len() as int, x.len() - 1) =~= base64(encode_utf8(a)));
    assert(y.subrange(head.len() as int, y.len() - 1) =~= base64(encode_utf8(b)));
    law_base64_tells_bytes_apart(encode_utf8(a), encode_utf8(b));
    lemma_encode_injective(a, b);
}

/// The step that copying a text has come to after the tools that it had run came
/// out as `outcomes` says, in order.
pub open spec fn step_after(text: Seq<char>, tools: usize, outcomes: Seq<bool>) -> CopyStep
    decreases outcomes.len(),
{
    if outcomes.len() == 0 {
        first_step(text, tools)
    } else {
        match step_after(text, tools, outcomes.drop_last()) {
            CopyStep::Run(tool) => step_behind(tools, tool, outcomes.last()),
            other => other,
        }
    }
}

/// As long as every tool refuses a text, the next one is tried, none is left
/// out, and the terminal is asked after the last.
pub proof fn law_refused_text_goes_on(text: Seq<char>, tools: usize, outcomes: Seq<bool>)
    requires
        text.len() > 0,
        outcomes.len() <= tools,
        forall|i: int| 0 <= i < outcomes.len() ==> !(#[trigger] outcomes[i]),
    ensures
        step_after(text, tools, outcomes) == try_tool(tools, outcomes.len() as int),
    decreases outcomes.len(),
{
    if outcomes.len() > 0 {
        assert forall|i: int| 0 <= i < outcomes.drop_last().len() implies !(
        #[trigger] outcomes.drop_last()[i]) by {
            assert(outcomes.drop_last()[i] == outcomes[i]);
        }
        law_refused_text_goes_on(text, tools, outcomes.drop_last());
        assert(!outcomes[outcomes.len() - 1]);
    }
}

/// The first tool that accepts a text is the last to be run, and the terminal is
/// not asked.
pub proof fn law_accepted_text_is_copied(text: Seq<char>, tools: usize, refusals: Seq<bool>)
    requires
        text.len() > 0,
        refusals.len() < tools,
        forall|i: int| 0 <= i < refusals.len() ==> !(#[trigger] refusals[i]),
    ensures
        step_after(text, tools, refusals.push(true)) == CopyStep::Done,
{
    law_refused_text_goes_on(text, tools, refusals);
    assert(refusals.push(true).drop_last() =~= refusals);
}

/// What a base64 character stands for, nothing for padding.
pub open spec fn base64_value(c: char) -> int {
    if 'A' <= c <= 'Z' {
        c as int - 'A' as int
    } else if 'a' <= c <= 'z' {
        c as int - 'a' as int + 26
    } else if '0' <= c <= '9' {
        c as int - '0' as int + 52
    } else if c == '+' {
        62
    } else if c == '/' {
        63
    } else {
        0
    }
}

proof fn lemma_symbol_value(bits: int)
    requires
        0 <= bits < 64,
    ensures
        base64_value(base64_symbol(bits)) == bits,
{
}

/// Bits that stand where no byte reaches are zero.
proof fn lemma_char_value(bytes: Seq<u8>, g: int, j: int)
    requires
        0 <= g,
        0 <= j < 4,
        3 * g < bytes.len(),
    ensures
        base64_value(base64_char(bytes, 4 * g + j)) == six_bits(base64_group(bytes, g), j),
{
    assert((4 * g + j) / 4 == g && (4 * g + j) % 4 == j);
    lemma_group_bounds(bytes, g);
    if 3 * g + j <= bytes.len() {
        lemma_symbol_value(six_bits(base64_group(bytes, g), j));
    } else if j == 2 {
        assert(base64_group(bytes, g) == bytes[3 * g] * 0x1_0000);
    }
}

/// Every four characters of a base64 form, read by the values of their symbols, six
/// bits each, give three bytes back, with padding in place of those that there are
/// not.
pub proof fn law_base64_reads_back(bytes: Seq<u8>, g: int)
    requires
        0 <= g,
        3 * g < bytes.len(),
    ensures
        ({
            let form = base64(bytes);
            let value = |j: int| base64_value(form[4 * g + j]);
            let byte = |j: int|
                if 3 * g + j < bytes.len() {
                    bytes[3 * g + j] as int
                } else {
                    0
                };
            &&& 4 * g + 4 <= form.len()
            &&& form.len() % 4 == 0 && 4 * bytes.len() <= 3 * form.len() < 4 * bytes.len() + 12
            &&& ((value(0) * 64 + value(1)) * 64 + value(2)) * 64 + value(3) == (byte(0) * 256
                + byte(1)) * 256 + byte(2)
            &&& form[4 * g + 2] == '=' <==> 3 * g + 1 >= bytes.len()
            &&& form[4 * g + 3] == '=' <==> 3 * g + 2 >= bytes.len()
        }),
{
    let form = base64(bytes);
    assert(4 * g + 3 < base64_len(bytes.len() as int));
    lemma_char_value(bytes, g, 0);
    lemma_char_value(bytes, g, 1);
    lemma_char_value(bytes, g, 2);
    lemma_char_value(bytes, g, 3);
    lemma_padding(bytes, g, 2);
    lemma_padding(bytes, g, 3);
    lemma_group_bounds(bytes, g);
    lemma_bits_of_group(base64_group(bytes, g));
    assert(form[4 * g] == base64_char(bytes, 4 * g));
}

/// Escape characters are doubled wherever they stand, and nothing else is changed.
pub proof fn law_escapes_are_doubled(a: Seq<char>, b: Seq<char>, c: char)
    ensures
        escapes_doubled(a + b) == escapes_doubled(a) + escapes_doubled(b),
        c == '\u{1b}' ==> escapes_doubled(seq![c]) == seq![c, c],
        c != '\u{1b}' ==> escapes_doubled(seq![c]) == seq![c],
        escapes_doubled(Seq::<char>::empty()).len() == 0,
    decreases b.len(),
{
    let one = seq![c];
    assert(one.drop_last() =~= Seq::<char>::empty());
    assert(escapes_doubled(one.drop_last()) =~= Seq::<char>::empty());
    assert(escapes_doubled(one) =~= (if c == '\u{1b}' {
        seq![c, c]
    } else {
        seq![c]
    }));
    if b.len() == 0 {
        assert(a + b =~= a);
        assert(escapes_doubled(a) + escapes_doubled(b) =~= escapes_doubled(a));
    } else {
        law_escapes_are_doubled(a, b.drop_last(), c);
        assert((a + b).drop_last() =~= a + b.drop_last());
        assert((a + b).last() == b.last());
        assert(escapes_doubled(a + b) =~= escapes_doubled(a) + escapes_doubled(b));
    }
}

/// Inside `tmux` the sequence is the same as outside, its escape characters
/// doubled, between `tmux`'s own start and end.
pub proof fn law_tmux_gets_the_same_sequence(text: Seq<char>)
    ensures
        osc52(text, true) == seq!['\u{1b}', 'P', 't', 'm', 'u', 'x', ';'] + escapes_doubled(
            osc52(text, false),
        ) + seq!['\u{1b}', '\\'],
        osc52(text, false) == seq!['\u{1b}', ']', '5', '2', ';', 'c', ';'] + base64(
            encode_utf8(text),
        ) + seq!['\u{7}'],
{
    reveal_strlit("\u{1b}Ptmux;");
    reveal_strlit("\u{1b}\\");
    reveal_strlit("\u{1b}]52;c;");
    assert("\u{1b}Ptmux;"@ =~= seq!['\u{1b}', 'P', 't', 'm', 'u', 'x', ';']);
    assert("\u{1b}\\"@ =~= seq!['\u{1b}', '\\']);
    assert("\u{1b}]52;c;"@ =~= seq!['\u{1b}', ']', '5', '2', ';', 'c', ';']);
    assert(osc52(text, false) =~= seq!['\u{1b}', ']', '5', '2', ';', 'c', ';'] + base64(
        encode_utf8(text),
    ) + seq!['\u{7}']);
}

/// Each desktop's tools are tried where it is there, whatever else is: that of
/// Wayland first, then those of X11, then that of macOS; the way into the Windows
/// clipboard is always there and always last.
pub proof fn law_tools_come_in_order(has_wayland: bool, has_x11: bool, is_macos: bool)
    ensures
        ({
            let tools = tools_to_try(has_wayland, has_x11, is_macos);
            let none = Seq::<Seq<char>>::empty();
            let a: int = if has_wayland {
                1
            } else {
                0
            };
            let b: int = if has_x11 {
                2
            } else {
                0
            };
            let c: int = if is_macos {
                1
            } else {
                0
            };
            &&& tools.len() == a + b + c + 1
            &&& has_wayland ==> tools[0] == ("wl-copy"@, none)
            &&& has_x11 ==> tools[a] == ("xclip"@, seq!["-selection"@, "clipboard"@])
            &&& has_x11 ==> tools[a + 1] == ("xsel"@, seq!["--clipboard"@, "--input"@])
            &&& is_macos ==> tools[a + b] == ("pbcopy"@, none)
            &&& tools[a + b + c] == ("clip.exe"@, none)
        }),
{
}

/// Tools are run one after the other, from the first on, as long as they refuse the
/// text; once one accepts it nothing more is done, and where all refuse it the
/// terminal is asked. For an empty text nothing is done at all.
pub proof fn law_tools_are_tried_in_turn(text: Seq<char>, tools: usize, tool: usize)
    ensures
        text.len() == 0 ==> first_step(text, tools) == CopyStep::Done,
        text.len() > 0 && tools > 0 ==> first_step(text, tools) == CopyStep::Run(0),
        text.len() > 0 && tools == 0 ==> first_step(text, tools) == CopyStep::WriteSequence,
        step_behind(tools, tool, true) == CopyStep::Done,
        tool + 1 < tools ==> step_behind(tools, tool, false) == CopyStep::Run((tool + 1) as usize),
        tool + 1 == tools ==> step_behind(tools, tool, false) == CopyStep::WriteSequence,
{
}

} // verus!
