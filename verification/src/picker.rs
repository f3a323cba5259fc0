//! An RGB colour picker.
//!
//! A [`ColorPicker`] holds the colour being picked, the channel that has the
//! focus and the digits typed into it. An application binds keys to its
//! operations, or uses the key map of [`ColorPicker::handle_key`]. What to draw
//! is computed by [`ColorPickerWidget::render_into`]: a swatch of the colour with
//! its hexadecimal form, a bar for each channel and perhaps a hint; drawing it
//! is left to the application.

use ratatui::layout::{Constraint as TermConstraint, Layout, Rect as TermRect};
use vstd::prelude::*;

use crate::geometry::Rect;
use crate::key::{KeyCode, KeyEvent};
use crate::style::{plain_style, Color, Line, Span, SpanModel, Style, BOLD, DIM};
use crate::text::{greatest, least};

verus! {

// ---------------------------------------------------------------------------
// Model
// ---------------------------------------------------------------------------

/// What a [`ColorPicker`] holds.
pub struct PickerState {
    /// The channel that has the focus: red, green or blue, counted from zero.
    pub channel: usize,
    /// The colour being picked.
    pub rgb: Seq<u8>,
    /// The colour the picker was opened with.
    pub orig: Seq<u8>,
    /// The digits typed into the channel since it got the focus.
    pub typed: Seq<u8>,
}

/// The number that decimal digits make.
pub open spec fn decimal(digits: Seq<u8>) -> int
    decreases digits.len(),
{
    if digits.len() == 0 {
        0
    } else {
        decimal(digits.drop_last()) * 10 + digits.last()
    }
}

/// `n` brought into the range of a channel.
pub open spec fn channel_value(n: int) -> int {
    greatest(0, least(n, 255))
}

impl PickerState {
    /// With another value in the channel that has the focus.
    pub open spec fn with_value(self, n: int) -> PickerState {
        PickerState { rgb: self.rgb.update(self.channel as int, channel_value(n) as u8), ..self }
    }

    /// Without typed digits.
    pub open spec fn without_digits(self) -> PickerState {
        PickerState { typed: Seq::<u8>::empty(), ..self }
    }

    /// With another colour.
    pub open spec fn recoloured(self, rgb: Seq<u8>) -> PickerState {
        PickerState { rgb, ..self }.without_digits()
    }

    /// After the channel that has the focus was changed by `delta`.
    pub open spec fn adjusted(self, delta: int) -> PickerState {
        self.with_value(self.rgb[self.channel as int] + delta).without_digits()
    }

    /// After a channel got the focus.
    pub open spec fn focused(self, channel: int) -> PickerState {
        PickerState { channel: least(channel, 2) as usize, ..self }.without_digits()
    }

    /// After a digit was typed: it is added to those typed before, or begins a
    /// new number behind three of them.
    pub open spec fn typed_digit(self, digit: u8) -> PickerState {
        let digits = if self.typed.len() >= 3 {
            seq![digit]
        } else {
            self.typed.push(digit)
        };
        PickerState { typed: digits, ..self }.with_value(decimal(digits))
    }

    /// After the last typed digit was deleted. The channel then holds what is
    /// left of the typed number, zero where nothing is.
    pub open spec fn digit_deleted(self) -> PickerState {
        let digits = if self.typed.len() > 0 {
            self.typed.drop_last()
        } else {
            self.typed
        };
        PickerState { typed: digits, ..self }.with_value(decimal(digits))
    }

    /// What every picker keeps to.
    pub open spec fn wf(self) -> bool {
        &&& self.channel <= 2
        &&& self.rgb.len() == 3
        &&& self.orig.len() == 3
        &&& self.typed.len() <= 3
        &&& forall|i: int| 0 <= i < self.typed.len() ==> #[trigger] self.typed[i] <= 9
    }
}

/// Whether `c` is a decimal digit.
pub open spec fn is_digit(c: char) -> bool {
    '0' <= c <= '9'
}

/// The value of a decimal digit.
pub open spec fn digit_value(c: char) -> u8 {
    (c as u32 - '0' as u32) as u8
}

/// A hexadecimal digit.
pub open spec fn hex_digit(n: int) -> char {
    if n < 10 {
        ('0' as int + n) as char
    } else {
        ('A' as int + n - 10) as char
    }
}

/// A colour as `#RRGGBB`.
pub open spec fn hex_text(rgb: Seq<u8>) -> Seq<char> {
    seq![
        '#',
        hex_digit(rgb[0] as int / 16),
        hex_digit(rgb[0] as int % 16),
        hex_digit(rgb[1] as int / 16),
        hex_digit(rgb[1] as int % 16),
        hex_digit(rgb[2] as int / 16),
        hex_digit(rgb[2] as int % 16),
    ]
}

// ---------------------------------------------------------------------------
// The picker
// ---------------------------------------------------------------------------

/// What a key press did.
#[derive(Clone, Copy, Debug, PartialEq, Eq, Structural)]
pub enum ColorPickerAction {
    /// It was handled by the picker.
    Changed,
    /// The colour is to be accepted.
    Accept,
    /// The picking is to be cancelled. The colour stays as it is; see
    /// [`ColorPicker::revert`].
    Cancel,
    /// It is not one that the picker handles.
    Ignored,
}

/// A colour being picked.
#[derive(Debug)]
pub struct ColorPicker {
    channel: usize,
    rgb: [u8; 3],
    orig: [u8; 3],
    typed: Vec<u8>,
}

impl View for ColorPicker {
    type V = PickerState;

    closed spec fn view(&self) -> PickerState {
        PickerState {
            channel: self.channel,
            rgb: self.rgb@,
            orig: self.orig@,
            typed: self.typed@,
        }
    }
}

impl ColorPicker {
    /// What every picker keeps to.
    #[verifier::type_invariant]
    pub open spec fn inv(self) -> bool {
        self@.wf()
    }

    /// A picker of the colour `rgb`, with the focus on red.
    pub fn new(rgb: [u8; 3]) -> (r: Self)
        ensures
            r@ == (PickerState {
                channel: 0,
                rgb: rgb@,
                orig: rgb@,
                typed: Seq::<u8>::empty(),
            }),
    {
        let typed: Vec<u8> = Vec::new();
        ColorPicker { channel: 0, rgb, orig: rgb, typed }
    }

    /// The colour being picked.
    pub fn rgb(&self) -> (r: [u8; 3])
        ensures
            r@ == self@.rgb,
    {
        self.rgb
    }

    /// The colour the picker was opened with.
    pub fn original(&self) -> (r: [u8; 3])
        ensures
            r@ == self@.orig,
    {
        self.orig
    }

    /// The channel that has the focus: 0 for red, 1 for green, 2 for blue.
    pub fn channel(&self) -> (r: usize)
        ensures
            r == self@.channel,
            r <= 2,
    {
        proof {
            use_type_invariant(self);
        }
        self.channel
    }

    /// The colour as `#RRGGBB`, in capital letters.
    pub fn hex(&self) -> (r: String)
        ensures
            r@ == hex_text(self@.rgb),
    {
        let mut out = String::new();
        out.push('#');
        push_hex(&mut out, self.rgb[0]);
        push_hex(&mut out, self.rgb[1]);
        push_hex(&mut out, self.rgb[2]);
        assert(out@ =~= hex_text(self@.rgb));
        out
    }

    /// Sets the colour and forgets the digits typed so far.
    pub fn set_rgb(&mut self, rgb: [u8; 3])
        ensures
            final(self)@ == old(self)@.recoloured(rgb@),
    {
        proof {
            use_type_invariant(&*self);
        }
        self.typed = Vec::new();
        self.rgb = rgb;
    }

    /// Goes back to the colour the picker was opened with.
    pub fn revert(&mut self)
        ensures
            final(self)@ == old(self)@.recoloured(old(self)@.orig),
    {
        proof {
            use_type_invariant(&*self);
        }
        self.typed = Vec::new();
        self.rgb = self.orig;
    }

    /// Changes the channel that has the focus by `delta`, from 0 to 255, and
    /// forgets the digits typed so far.
    pub fn adjust(&mut self, delta: i16)
        ensures
            final(self)@ == old(self)@.adjusted(delta as int),
    {
        proof {
            use_type_invariant(&*self);
        }
        let n: i32 = self.rgb[self.channel] as i32 + delta as i32;
        self.set_value(n);
        self.typed = Vec::new();
    }

    /// Sets the channel that has the focus, brought into its range.
    fn set_value(&mut self, n: i32)
        ensures
            final(self)@ == old(self)@.with_value(n as int),
    {
        proof {
            use_type_invariant(&*self);
        }
        let value: u8 = if n < 0 {
            0
        } else if n > 255 {
            255
        } else {
            n as u8
        };
        let mut rgb: [u8; 3] = self.rgb;
        rgb[self.channel] = value;
        self.rgb = rgb;
    }

    /// Gives `channel` the focus, blue where there is no such channel, and forgets
    /// the digits typed so far.
    pub fn focus_channel(&mut self, channel: usize)
        ensures
            final(self)@ == old(self)@.focused(channel as int),
    {
        proof {
            use_type_invariant(&*self);
        }
        self.typed = Vec::new();
        self.channel = if channel < 2 {
            channel
        } else {
            2
        };
    }

    /// Gives the channel before the focus; red keeps it.
    pub fn focus_prev_channel(&mut self)
        ensures
            final(self)@ == old(self)@.focused(greatest(old(self)@.channel - 1, 0)),
    {
        self.focus_channel(self.channel.saturating_sub(1));
    }

    /// Gives the next channel the focus; blue keeps it.
    pub fn focus_next_channel(&mut self)
        ensures
            final(self)@ == old(self)@.focused(old(self)@.channel + 1),
    {
        proof {
            use_type_invariant(&*self);
        }
        self.focus_channel(self.channel + 1);
    }

    /// Types a decimal digit into the channel that has the focus. A fourth digit
    /// begins a new number; numbers above 255 count as 255. Other characters are
    /// ignored.
    pub fn type_digit(&mut self, d: char)
        ensures
            final(self)@ == (if is_digit(d) {
                old(self)@.typed_digit(digit_value(d))
            } else {
                old(self)@
            }),
    {
        proof {
            use_type_invariant(&*self);
        }
        if d < '0' || d > '9' {
            return ;
        }
        let digit: u8 = (d as u32 - '0' as u32) as u8;
        let mut digits: Vec<u8> = if self.typed.len() >= 3 {
            Vec::new()
        } else {
            self.typed.clone()
        };
        digits.push(digit);
        assert(digits@ =~= old(self)@.typed_digit(digit).typed);
        let n: i32 = parse_digits(&digits);
        self.typed = digits;
        self.set_value(n);
    }

    /// Deletes the last digit typed into the channel that has the focus, which
    /// then holds what is left of the number.
    pub fn backspace(&mut self)
        ensures
            final(self)@ == old(self)@.digit_deleted(),
    {
        proof {
            use_type_invariant(&*self);
        }
        let mut digits: Vec<u8> = self.typed.clone();
        let _ = digits.pop();
        assert(digits@ =~= old(self)@.digit_deleted().typed);
        let n: i32 = parse_digits(&digits);
        self.typed = digits;
        self.set_value(n);
    }

    /// A key map for applications that do not bind keys themselves: Enter
    /// accepts, Escape cancels; the arrows up and down, and `k` and `j`, move the
    /// focus; the arrows left and right change the channel by 1, with the control
    /// key, or as page keys, by 16; digits type a number, and Backspace deletes
    /// from it.
    pub fn handle_key(&mut self, key: KeyEvent) -> (r: ColorPickerAction)
        ensures
            r == key_action(key),
            final(self)@ == key_handled(old(self)@, key),
    {
        match key.code {
            KeyCode::Enter => ColorPickerAction::Accept,
            KeyCode::Esc => ColorPickerAction::Cancel,
            KeyCode::Up => {
                self.focus_prev_channel();
                ColorPickerAction::Changed
            },
            KeyCode::Down => {
                self.focus_next_channel();
                ColorPickerAction::Changed
            },
            KeyCode::Left => {
                self.adjust(
                    if key.control {
                        -16
                    } else {
                        -1
                    },
                );
                ColorPickerAction::Changed
            },
            KeyCode::Right => {
                self.adjust(
                    if key.control {
                        16
                    } else {
                        1
                    },
                );
                ColorPickerAction::Changed
            },
            KeyCode::PageDown => {
                self.adjust(-16);
                ColorPickerAction::Changed
            },
            KeyCode::PageUp => {
                self.adjust(16);
                ColorPickerAction::Changed
            },
            KeyCode::Backspace => {
                self.backspace();
                ColorPickerAction::Changed
            },
            KeyCode::Char(c) => {
                if c == 'k' {
                    self.focus_prev_channel();
                    ColorPickerAction::Changed
                } else if c == 'j' {
                    self.focus_next_channel();
                    ColorPickerAction::Changed
                } else if '0' <= c && c <= '9' {
                    self.type_digit(c);
                    ColorPickerAction::Changed
                } else {
                    ColorPickerAction::Ignored
                }
            },
            _ => ColorPickerAction::Ignored,
        }
    }
}

/// What a key press does.
pub open spec fn key_action(key: KeyEvent) -> ColorPickerAction {
    match key.code {
        KeyCode::Enter => ColorPickerAction::Accept,
        KeyCode::Esc => ColorPickerAction::Cancel,
        KeyCode::Up | KeyCode::Down | KeyCode::Left | KeyCode::Right | KeyCode::PageUp
        | KeyCode::PageDown | KeyCode::Backspace => ColorPickerAction::Changed,
        KeyCode::Char(c) => if c == 'k' || c == 'j' || is_digit(c) {
            ColorPickerAction::Changed
        } else {
            ColorPickerAction::Ignored
        },
        _ => ColorPickerAction::Ignored,
    }
}

/// The picker after a key press.
pub open spec fn key_handled(s: PickerState, key: KeyEvent) -> PickerState {
    let step: int = if key.control {
        16
    } else {
        1
    };
    match key.code {
        KeyCode::Up => s.focused(greatest(s.channel - 1, 0)),
        KeyCode::Down => s.focused(s.channel + 1),
        KeyCode::Left => s.adjusted(-step),
        KeyCode::Right => s.adjusted(step),
        KeyCode::PageDown => s.adjusted(-16),
        KeyCode::PageUp => s.adjusted(16),
        KeyCode::Backspace => s.digit_deleted(),
        KeyCode::Char(c) => if c == 'k' {
            s.focused(greatest(s.channel - 1, 0))
        } else if c == 'j' {
            s.focused(s.channel + 1)
        } else if is_digit(c) {
            s.typed_digit(digit_value(c))
        } else {
            s
        },
        _ => s,
    }
}

/// The number that at most three decimal digits make.
fn parse_digits(digits: &Vec<u8>) -> (r: i32)
    requires
        digits@.len() <= 3,
        forall|i: int| 0 <= i < digits@.len() ==> #[trigger] digits@[i] <= 9,
    ensures
        r == decimal(digits@),
        0 <= r <= 999,
{
    let mut n: i32 = 0;
    let mut i: usize = 0;
    assert(digits@.take(0) =~= Seq::<u8>::empty());
    while i < digits.len()
        invariant
            i <= digits.len(),
            digits@.len() <= 3,
            forall|k: int| 0 <= k < digits@.len() ==> #[trigger] digits@[k] <= 9,
            n == decimal(digits@.take(i as int)),
            0 <= n,
            i == 0 ==> n == 0,
            i == 1 ==> n <= 9,
            i == 2 ==> n <= 99,
            i == 3 ==> n <= 999,
        decreases digits.len() - i,
    {
        assert(digits@.take(i + 1).drop_last() =~= digits@.take(i as int));
        assert(digits@.take(i + 1).last() == digits@[i as int]);
        n = n * 10 + digits[i] as i32;
        i = i + 1;
    }
    assert(digits@.take(digits@.len() as int) =~= digits@);
    n
}

/// The hexadecimal digit of `n`.
fn hex_char(n: u8) -> (r: char)
    requires
        n < 16,
    ensures
        r == hex_digit(n as int),
{
    if n < 10 {
        (48 + n) as char
    } else {
        (55 + n) as char
    }
}

/// Appends two hexadecimal digits.
fn push_hex(out: &mut String, n: u8)
    ensures
        final(out)@ == old(out)@.push(hex_digit(n as int / 16)).push(hex_digit(n as int % 16)),
{
    out.push(hex_char(n / 16));
    out.push(hex_char(n % 16));
}

impl Clone for ColorPicker {
    fn clone(&self) -> (r: Self)
        ensures
            r@ == self@,
    {
        proof {
            use_type_invariant(self);
        }
        let typed: Vec<u8> = self.typed.clone();
        assert(typed@ =~= self.typed@);
        ColorPicker { channel: self.channel, rgb: self.rgb, orig: self.orig, typed }
    }
}

// ---------------------------------------------------------------------------
// Drawing
// ---------------------------------------------------------------------------

/// The styles of a picker.
#[derive(Clone, Copy, Debug, PartialEq, Eq, Structural)]
pub struct ColorPickerStyle {
    /// The label of a channel without the focus.
    pub label: Style,
    /// The label of the channel that has the focus.
    pub label_focused: Style,
    /// The bars.
    pub bar: Style,
    /// The hexadecimal form and the channels' values.
    pub value: Style,
    /// The hint.
    pub hint: Style,
    /// The number of cells of a bar.
    pub bar_width: usize,
}

/// The style that only switches a modifier on.
pub open spec fn modified(modifier: u16) -> Style {
    Style { add_modifier: modifier, ..plain_style() }
}

/// The style that only switches a modifier on.
fn modifier_style(modifier: u16) -> (r: Style)
    ensures
        r == modified(modifier),
{
    Style { fg: None, bg: None, underline_color: None, add_modifier: modifier, sub_modifier: 0 }
}

impl Default for ColorPickerStyle {
    /// Dim labels and hint, a bold label for the focus, bars of 16 cells.
    fn default() -> (r: Self)
        ensures
            r == (ColorPickerStyle {
                label: modified(DIM),
                label_focused: modified(BOLD),
                bar: plain_style(),
                value: plain_style(),
                hint: modified(DIM),
                bar_width: 16,
            }),
    {
        ColorPickerStyle {
            label: modifier_style(DIM),
            label_focused: modifier_style(BOLD),
            bar: Style::default(),
            value: Style::default(),
            hint: modifier_style(DIM),
            bar_width: 16,
        }
    }
}

/// The words of a picker.
#[derive(Clone, Copy, Debug)]
pub struct ColorPickerLabels<'a> {
    /// The names of the channels: red, green and blue.
    pub channels: [&'a str; 3],
    /// A hint below the channels, where there is one.
    pub hint: Option<&'a str>,
}

impl Default for ColorPickerLabels<'static> {
    /// `R`, `G` and `B`, and no hint.
    fn default() -> (r: Self)
        ensures
            r.channels@[0]@ == "R"@,
            r.channels@[1]@ == "G"@,
            r.channels@[2]@ == "B"@,
            r.hint is None,
    {
        ColorPickerLabels { channels: ["R", "G", "B"], hint: None }
    }
}

/// A view of a picker, to be drawn; see [`ColorPicker::widget`].
pub struct ColorPickerWidget<'a> {
    picker: &'a ColorPicker,
    style: &'a ColorPickerStyle,
    labels: &'a ColorPickerLabels<'a>,
}

/// A line of text and the area it is drawn in.
pub struct PlacedLine {
    /// The area.
    pub area: Rect,
    /// The line.
    pub line: Line,
    /// Whether the line is wrapped, at words and without leading spaces, where
    /// it does not fit; it is cut off otherwise.
    pub wrapped: bool,
}

/// What a [`PlacedLine`] holds.
pub struct PlacedModel {
    pub area: Rect,
    pub line: Seq<SpanModel>,
    pub wrapped: bool,
}

impl View for PlacedLine {
    type V = PlacedModel;

    open spec fn view(&self) -> PlacedModel {
        PlacedModel { area: self.area, line: self.line@, wrapped: self.wrapped }
    }
}

/// What a sequence of placed lines holds.
pub open spec fn placed_models(lines: Seq<PlacedLine>) -> Seq<PlacedModel> {
    Seq::new(lines.len(), |i: int| lines[i]@)
}

/// The swatch: six cells of the colour, and its hexadecimal form.
pub open spec fn swatch_line(rgb: Seq<u8>, style: ColorPickerStyle) -> Seq<SpanModel> {
    seq![
        SpanModel {
            content: "      "@,
            style: Style { bg: Some(Color::Rgb(rgb[0], rgb[1], rgb[2])), ..plain_style() },
        },
        SpanModel { content: "  "@, style: plain_style() },
        SpanModel { content: hex_text(rgb), style: style.value },
    ]
}

/// The number of cells of a bar, at least one.
pub open spec fn bar_cells(style: ColorPickerStyle) -> int {
    greatest(style.bar_width as int, 1)
}

/// The number of filled cells of a bar, in proportion to the channel's value.
pub open spec fn filled_cells(value: u8, cells: int) -> int {
    value * cells / 255
}

/// A bar: filled cells, then empty ones.
pub open spec fn bar_text(value: u8, cells: int) -> Seq<char> {
    Seq::new(
        cells as nat,
        |i: int|
            if i < filled_cells(value, cells) {
                '\u{2588}'
            } else {
                '\u{2591}'
            },
    )
}

/// A channel's value in decimal, to the right of three columns, behind a space.
pub open spec fn value_text(value: u8) -> Seq<char> {
    let v = value as int;
    seq![
        ' ',
        if v >= 100 {
            hex_digit(v / 100)
        } else {
            ' '
        },
        if v >= 10 {
            hex_digit(v / 10 % 10)
        } else {
            ' '
        },
        hex_digit(v % 10),
    ]
}

/// The label of a channel: a mark where it has the focus, and its name.
pub open spec fn label_text(name: Seq<char>, focused: bool) -> Seq<char> {
    (seq![
        if focused {
            '\u{203a}'
        } else {
            ' '
        },
        ' ',
    ] + name).push(' ')
}

/// The line of a channel.
pub open spec fn channel_line(
    s: PickerState,
    style: ColorPickerStyle,
    name: Seq<char>,
    ch: int,
) -> Seq<SpanModel> {
    seq![
        SpanModel {
            content: label_text(name, s.channel == ch),
            style: if s.channel == ch {
                style.label_focused
            } else {
                style.label
            },
        },
        SpanModel { content: bar_text(s.rgb[ch], bar_cells(style)), style: style.bar },
        SpanModel { content: value_text(s.rgb[ch]), style: style.value },
    ]
}

/// Everything drawn of a picker, in rows: the swatch in the first, the channels
/// in the third to the fifth, and the hint, where there is one, in the sixth,
/// unless that is empty.
pub open spec fn picker_lines(
    s: PickerState,
    style: ColorPickerStyle,
    labels: ColorPickerLabels<'_>,
    rows: Seq<Rect>,
) -> Seq<PlacedModel> {
    seq![
        PlacedModel { area: rows[0], line: swatch_line(s.rgb, style), wrapped: false },
        PlacedModel {
            area: rows[2],
            line: channel_line(s, style, labels.channels@[0]@, 0),
            wrapped: false,
        },
        PlacedModel {
            area: rows[3],
            line: channel_line(s, style, labels.channels@[1]@, 1),
            wrapped: false,
        },
        PlacedModel {
            area: rows[4],
            line: channel_line(s, style, labels.channels@[2]@, 2),
            wrapped: false,
        },
    ] + (if labels.hint is Some && rows[5].height > 0 {
        seq![
            PlacedModel {
                area: rows[5],
                line: seq![SpanModel { content: labels.hint->0@, style: style.hint }],
                wrapped: true,
            },
        ]
    } else {
        Seq::<PlacedModel>::empty()
    })
}

/// How high a row of a vertical layout is.
#[derive(Clone, Copy, Debug, PartialEq, Eq, Structural)]
pub enum RowHeight {
    /// So many cells.
    Length(u16),
    /// At least so many cells, and all that is left over.
    Min(u16),
}

/// The cells that the first `k` rows take up, each as high as it says.
pub open spec fn cells_above(heights: Seq<RowHeight>, k: int) -> int
    decreases k,
{
    if k <= 0 {
        0
    } else {
        cells_above(heights, k - 1) + (match heights[k - 1] {
            RowHeight::Length(n) => n as int,
            RowHeight::Min(n) => n as int,
        })
    }
}

/// Whether `area` has room for rows of fixed heights and one last row for the
/// rest.
pub open spec fn rows_have_room(area: Rect, heights: Seq<RowHeight>) -> bool {
    &&& heights.len() > 0
    &&& forall|k: int| 0 <= k < heights.len() - 1 ==> (#[trigger] heights[k]) is Length
    &&& heights.last() == RowHeight::Min(0)
    &&& cells_above(heights, heights.len() as int) <= area.height
    &&& area.y + area.height <= u16::MAX
}

/// Row `k` of an area with room: as high as it says, the last one down to the
/// area's end.
pub open spec fn roomy_row(area: Rect, heights: Seq<RowHeight>, k: int) -> Rect {
    let above = cells_above(heights, k);
    Rect {
        x: area.x,
        y: (area.y + above) as u16,
        width: area.width,
        height: if k == heights.len() - 1 {
            (area.height - above) as u16
        } else {
            (cells_above(heights, k + 1) - above) as u16
        },
    }
}

/// Whether every row is as wide as `area` and lies within it.
pub open spec fn rows_inside(area: Rect, rows: Seq<Rect>) -> bool {
    forall|k: int|
        0 <= k < rows.len() ==> (#[trigger] rows[k]).x == area.x && rows[k].width == area.width
            && area.y <= rows[k].y && rows[k].y + rows[k].height <= area.y + area.height
}

/// Whether `heights` are fixed but for a last row that takes the rest. Layouts of
/// a hundred rows and more are left out: `ratatui` rounds the ends of each row by
/// themselves, to hundredths first, which tells apart what is equal only there.
pub open spec fn fixed_but_last(heights: Seq<RowHeight>) -> bool {
    &&& 0 < heights.len() < 100
    &&& forall|k: int| 0 <= k < heights.len() - 1 ==> (#[trigger] heights[k]) is Length
    &&& heights.last() == RowHeight::Min(0)
}

/// The row behind the last one of `area` that has a number.
pub open spec fn area_end(area: Rect) -> int {
    least(area.y + area.height, u16::MAX as int)
}

/// Whether `rows` fill `area` from its top to its end, without a gap and without
/// overlap, none of fixed height higher than it says, and the last one empty
/// where the others need all there is.
pub open spec fn rows_stacked(area: Rect, heights: Seq<RowHeight>, rows: Seq<Rect>) -> bool {
    &&& rows.len() == heights.len()
    &&& rows[0].y == area.y
    &&& forall|j: int, k: int|
        #![trigger rows[j], rows[k]]
        0 <= j < rows.len() - 1 && k == j + 1 ==> rows[k].y == rows[j].y + rows[j].height
    &&& rows.last().y + rows.last().height == area_end(area)
    &&& forall|k: int|
        0 <= k < rows.len() - 1 ==> (#[trigger] rows[k]).height <= heights[k]->Length_0
    &&& cells_above(heights, heights.len() - 1) >= area_end(area) - area.y
        ==> rows.last().height == 0
}

/// `ratatui`'s `Layout::split` with a vertical layout: a row for every height,
/// each as wide as the area and within it. Fixed heights with a last row for the
/// rest are stacked from the area's top to its end; where all of them fit, fixed
/// heights are kept and the last row takes the rest. Where they do not, no fixed
/// height is exceeded and the last row is empty; which rows are cut short is up
/// to `ratatui`'s constraint solver, and nothing is said of it.
#[verifier::external_body]
fn split_rows(area: Rect, heights: &Vec<RowHeight>) -> (r: Vec<Rect>)
    ensures
        r@.len() == heights@.len(),
        rows_inside(area, r@),
        fixed_but_last(heights@) ==> rows_stacked(area, heights@, r@),
        rows_have_room(area, heights@) ==> (forall|k: int|
            0 <= k < r@.len() ==> #[trigger] r@[k] == roomy_row(area, heights@, k)),
{
    let whole = TermRect { x: area.x, y: area.y, width: area.width, height: area.height };
    let constraint = |height: &RowHeight| match height {
        RowHeight::Length(n) => TermConstraint::Length(*n),
        RowHeight::Min(n) => TermConstraint::Min(*n),
    };
    let rows = Layout::vertical(heights.iter().map(constraint)).split(whole);
    rows.iter().map(|r| Rect { x: r.x, y: r.y, width: r.width, height: r.height }).collect()
}

/// The heights of a picker's rows: the swatch, a gap, the channels, and the rest
/// for the hint.
pub open spec fn picker_heights() -> Seq<RowHeight> {
    seq![
        RowHeight::Length(1),
        RowHeight::Length(1),
        RowHeight::Length(1),
        RowHeight::Length(1),
        RowHeight::Length(1),
        RowHeight::Min(0),
    ]
}

/// Row `k` of a picker's in an area that has room for all of them.
pub open spec fn picker_row(area: Rect, k: int) -> Rect {
    Rect {
        x: area.x,
        y: (area.y + k) as u16,
        width: area.width,
        height: if k == 5 {
            (area.height - 5) as u16
        } else {
            1
        },
    }
}

impl ColorPicker {
    /// A view of this picker in `style` with the words of `labels`, to be drawn.
    pub fn widget<'a>(
        &'a self,
        style: &'a ColorPickerStyle,
        labels: &'a ColorPickerLabels<'a>,
    ) -> (r: ColorPickerWidget<'a>)
        ensures
            r.state() == self@,
            r.look() == *style,
            r.words() == *labels,
    {
        ColorPickerWidget { picker: self, style, labels }
    }
}

impl<'a> ColorPickerWidget<'a> {
    /// The picker's state.
    pub closed spec fn state(&self) -> PickerState {
        self.picker@
    }

    /// The picker's styles.
    pub closed spec fn look(&self) -> ColorPickerStyle {
        *self.style
    }

    /// The picker's words.
    pub closed spec fn words(&self) -> ColorPickerLabels<'a> {
        *self.labels
    }

    /// What to draw of the picker in `area`, in rows that are stacked from its top
    /// to its end; nothing in an empty one. In an area of at least five rows each
    /// part has the row it needs; in a lower one, some have none.
    pub fn render_into(&self, area: Rect) -> (r: Vec<PlacedLine>)
        ensures
            area.height == 0 || area.width == 0 ==> r@.len() == 0,
            area.height > 0 && area.width > 0 ==> exists|rows: Seq<Rect>|
                #[trigger] rows_inside(area, rows) && rows_stacked(area, picker_heights(), rows)
                    && placed_models(r@) == picker_lines(
                    self.state(),
                    self.look(),
                    self.words(),
                    rows,
                ),
            area.height >= 5 && area.width > 0 && area.y + area.height <= u16::MAX
                ==> placed_models(r@) == picker_lines(
                self.state(),
                self.look(),
                self.words(),
                Seq::new(6, |k: int| picker_row(area, k)),
            ),
    {
        if area.height == 0 || area.width == 0 {
            return Vec::new();
        }
        let heights: Vec<RowHeight> = picker_row_heights();
        let rows = split_rows(area, &heights);
        proof {
            assert(fixed_but_last(heights@));
            if area.height >= 5 && area.y + area.height <= u16::MAX {
                reveal_with_fuel(cells_above, 7);
                assert(rows_have_room(area, heights@));
                assert(rows@ =~= Seq::new(6, |k: int| picker_row(area, k)));
            }
        }
        self.place(&rows)
    }

    /// What to draw of the picker in the given rows.
    pub fn place(&self, rows: &[Rect]) -> (r: Vec<PlacedLine>)
        requires
            rows@.len() == 6,
        ensures
            placed_models(r@) == picker_lines(self.state(), self.look(), self.words(), rows@),
    {
        proof {
            use_type_invariant(self.picker);
        }
        let mut out: Vec<PlacedLine> = Vec::new();
        out.push(PlacedLine { area: rows[0], line: self.swatch(), wrapped: false });
        out.push(PlacedLine { area: rows[2], line: self.channel(0), wrapped: false });
        out.push(PlacedLine { area: rows[3], line: self.channel(1), wrapped: false });
        out.push(PlacedLine { area: rows[4], line: self.channel(2), wrapped: false });
        if let Some(hint) = self.labels.hint {
            if rows[5].height > 0 {
                let mut spans: Vec<Span> = Vec::new();
                spans.push(Span::styled(hint.to_owned(), self.style.hint));
                let line = Line { spans };
                assert(line@ =~= seq![SpanModel { content: hint@, style: self.style.hint }]);
                out.push(PlacedLine { area: rows[5], line, wrapped: true });
            }
        }
        assert(placed_models(out@) =~= picker_lines(
            self.state(),
            self.look(),
            self.words(),
            rows@,
        ));
        out
    }

    /// The swatch.
    fn swatch(&self) -> (r: Line)
        ensures
            r@ == swatch_line(self.state().rgb, self.look()),
    {
        let rgb: [u8; 3] = self.picker.rgb;
        let style = Style {
            fg: None,
            bg: Some(Color::Rgb(rgb[0], rgb[1], rgb[2])),
            underline_color: None,
            add_modifier: 0,
            sub_modifier: 0,
        };
        let mut spans: Vec<Span> = Vec::new();
        spans.push(Span::styled("      ".to_owned(), style));
        spans.push(Span::raw("  ".to_owned()));
        spans.push(Span::styled(self.picker.hex(), self.style.value));
        let r = Line { spans };
        assert(r@ =~= swatch_line(self.state().rgb, self.look()));
        r
    }

    /// The line of channel `ch`.
    fn channel(&self, ch: usize) -> (r: Line)
        requires
            ch < 3,
        ensures
            r@ == channel_line(
                self.state(),
                self.look(),
                self.words().channels@[ch as int]@,
                ch as int,
            ),
    {
        let value: u8 = self.picker.rgb[ch];
        let name: &str = self.labels.channels[ch];
        let focused: bool = self.picker.channel == ch;
        let cells: usize = if self.style.bar_width > 1 {
            self.style.bar_width
        } else {
            1
        };
        let mut label = String::new();
        label.push(
            if focused {
                '\u{203a}'
            } else {
                ' '
            },
        );
        label.push(' ');
        label.append(name);
        label.push(' ');
        assert(label@ =~= label_text(name@, focused));
        let label_style: Style = if focused {
            self.style.label_focused
        } else {
            self.style.label
        };
        let mut spans: Vec<Span> = Vec::new();
        spans.push(Span::styled(label, label_style));
        spans.push(Span::styled(bar(value, cells), self.style.bar));
        spans.push(Span::styled(aligned(value), self.style.value));
        let r = Line { spans };
        assert(r@ =~= channel_line(self.state(), self.look(), name@, ch as int));
        r
    }
}

/// The heights of a picker's rows.
fn picker_row_heights() -> (r: Vec<RowHeight>)
    ensures
        r@ == picker_heights(),
{
    let mut out: Vec<RowHeight> = Vec::new();
    out.push(RowHeight::Length(1));
    out.push(RowHeight::Length(1));
    out.push(RowHeight::Length(1));
    out.push(RowHeight::Length(1));
    out.push(RowHeight::Length(1));
    out.push(RowHeight::Min(0));
    assert(out@ =~= picker_heights());
    out
}

/// A bar of `cells` cells.
fn bar(value: u8, cells: usize) -> (r: String)
    ensures
        r@ == bar_text(value, cells as int),
{
    proof {
        assert(0 <= value * cells <= 255 * cells) by (nonlinear_arith)
            requires
                0 <= value <= 255,
                0 <= cells,
        ;
    }
    let filled: u128 = value as u128 * cells as u128 / 255;
    let mut out = String::new();
    let mut i: usize = 0;
    while i < cells
        invariant
            i <= cells,
            filled == filled_cells(value, cells as int),
            out@.len() == i,
            forall|k: int|
                0 <= k < i ==> #[trigger] out@[k] == (if k < filled {
                    '\u{2588}'
                } else {
                    '\u{2591}'
                }),
        decreases cells - i,
    {
        out.push(
            if (i as u128) < filled {
                '\u{2588}'
            } else {
                '\u{2591}'
            },
        );
        i = i + 1;
    }
    assert(out@ =~= bar_text(value, cells as int));
    out
}

/// A channel's value, to the right of three columns, behind a space.
fn aligned(value: u8) -> (r: String)
    ensures
        r@ == value_text(value),
{
    let mut out = String::new();
    out.push(' ');
    out.push(
        if value >= 100 {
            hex_char(value / 100)
        } else {
            ' '
        },
    );
    out.push(
        if value >= 10 {
            hex_char(value / 10 % 10)
        } else {
            ' '
        },
    );
    out.push(hex_char(value % 10));
    assert(out@ =~= value_text(value));
    out
}

// ---------------------------------------------------------------------------
// Laws
// ---------------------------------------------------------------------------

/// Whatever key is pressed, a picker stays one, and the colour it was opened with
/// is not forgotten: going back gives that colour.
pub proof fn law_original_is_kept(s: PickerState, key: KeyEvent)
    requires
        s.wf(),
    ensures
        key_handled(s, key).wf(),
        key_handled(s, key).orig == s.orig,
        key_action(key) != ColorPickerAction::Changed ==> key_handled(s, key) == s,
{
}

/// Keys change one channel at most: the one that has the focus.
pub proof fn law_other_channels_stay(s: PickerState, key: KeyEvent, ch: int)
    requires
        s.wf(),
        0 <= ch < 3,
        ch != s.channel,
    ensures
        key_handled(s, key).rgb[ch] == s.rgb[ch],
{
}

/// Three digits type the number that they make, up to 255, whatever was in the
/// channel before.
pub proof fn law_three_digits_make_a_number(s: PickerState, a: u8, b: u8, c: u8)
    requires
        s.wf(),
        s.typed.len() == 0,
        a <= 9,
        b <= 9,
        c <= 9,
    ensures
        s.typed_digit(a).typed_digit(b).typed_digit(c).rgb[s.channel as int] == channel_value(
            a * 100 + b * 10 + c,
        ),
{
    let one = Seq::<u8>::empty().push(a);
    let two = one.push(b);
    let three = two.push(c);
    assert(s.typed =~= Seq::<u8>::empty());
    assert(one.drop_last() =~= Seq::<u8>::empty());
    assert(two.drop_last() =~= one);
    assert(three.drop_last() =~= two);
    assert(decimal(Seq::<u8>::empty()) == 0);
    assert(decimal(one) == a);
    assert(decimal(two) == a * 10 + b);
    assert(decimal(three) == a * 100 + b * 10 + c);
}

/// A picker is drawn within the area it is given: every line of it lies in rows of
/// that area.
pub proof fn law_picker_stays_in_its_area(
    s: PickerState,
    style: ColorPickerStyle,
    labels: ColorPickerLabels<'_>,
    area: Rect,
    rows: Seq<Rect>,
    i: int,
)
    requires
        rows.len() == 6,
        rows_inside(area, rows),
        0 <= i < picker_lines(s, style, labels, rows).len(),
    ensures
        ({
            let at = picker_lines(s, style, labels, rows)[i].area;
            &&& at.x == area.x && at.width == area.width
            &&& area.y <= at.y && at.y + at.height <= area.y + area.height
        }),
{
    assert(i <= 4);
    let k: int = if i == 0 {
        0
    } else {
        i + 1
    };
    assert(picker_lines(s, style, labels, rows)[i].area == rows[k]);
}

/// A full channel fills its bar, an empty one leaves it empty, and no bar is
/// filled beyond its end.
pub proof fn law_bar_in_proportion(value: u8, cells: int)
    requires
        cells >= 1,
    ensures
        0 <= filled_cells(value, cells) <= cells,
        filled_cells(0, cells) == 0,
        filled_cells(255, cells) == cells,
{
    assert(0 <= value * cells <= 255 * cells) by (nonlinear_arith)
        requires
            0 <= value <= 255,
            1 <= cells,
    ;
    assert(0 * cells == 0);
}

/// What a hexadecimal digit, in capital letters, stands for.
pub open spec fn hex_value(c: char) -> int {
    if '0' <= c <= '9' {
        c as int - '0' as int
    } else if 'A' <= c <= 'F' {
        c as int - 'A' as int + 10
    } else {
        -1
    }
}

/// The hexadecimal form is a `#` and two digits for each channel, and reading
/// the digits gives the channel's value back.
pub proof fn law_hex_reads_back(rgb: Seq<u8>, ch: int)
    requires
        rgb.len() == 3,
        0 <= ch < 3,
    ensures
        hex_text(rgb).len() == 7,
        hex_text(rgb)[0] == '#',
        0 <= hex_value(hex_text(rgb)[2 * ch + 1]) < 16,
        0 <= hex_value(hex_text(rgb)[2 * ch + 2]) < 16,
        hex_value(hex_text(rgb)[2 * ch + 1]) * 16 + hex_value(hex_text(rgb)[2 * ch + 2])
            == rgb[ch],
{
    let v = rgb[ch] as int;
    assert(0 <= v / 16 < 16 && 0 <= v % 16 < 16);
    assert(hex_text(rgb)[2 * ch + 1] == hex_digit(v / 16));
    assert(hex_text(rgb)[2 * ch + 2] == hex_digit(v % 16));
    lemma_hex_digit(v / 16);
    lemma_hex_digit(v % 16);
}

/// Different colours have different hexadecimal forms.
pub proof fn law_hex_tells_colours_apart(a: Seq<u8>, b: Seq<u8>)
    requires
        a.len() == 3,
        b.len() == 3,
    ensures
        hex_text(a) == hex_text(b) ==> a == b,
{
    if hex_text(a) == hex_text(b) {
        assert forall|ch: int| 0 <= ch < 3 implies a[ch] == b[ch] by {
            law_hex_reads_back(a, ch);
            law_hex_reads_back(b, ch);
        }
        assert(a =~= b);
    }
}

/// A digit stands for the number it was made from.
proof fn lemma_hex_digit(n: int)
    requires
        0 <= n < 16,
    ensures
        hex_value(hex_digit(n)) == n,
        hex_digit(n) != ' ',
{
    if n < 10 {
        assert(hex_digit(n) as int == '0' as int + n);
    } else {
        assert(hex_digit(n) as int == 'A' as int + n - 10);
    }
}

/// A channel's value is shown in decimal behind a space, its digits pushed to
/// the right of three columns, and reading them gives the value back.
pub proof fn law_value_reads_back(value: u8)
    ensures
        ({
            let text = value_text(value);
            let digit = |k: int|
                if text[k] == ' ' {
                    0
                } else {
                    hex_value(text[k])
                };
            &&& text.len() == 4
            &&& text[0] == ' '
            &&& text[1] == ' ' <==> value < 100
            &&& text[2] == ' ' <==> value < 10
            &&& text[3] != ' '
            &&& forall|k: int| 1 <= k < 4 ==> 0 <= #[trigger] digit(k) <= 9
            &&& digit(1) * 100 + digit(2) * 10 + digit(3) == value
        }),
{
    let v = value as int;
    lemma_hex_digit(v / 100);
    lemma_hex_digit(v / 10 % 10);
    lemma_hex_digit(v % 10);
    let text = value_text(value);
    let digit = |k: int|
        if text[k] == ' ' {
            0
        } else {
            hex_value(text[k])
        };
    assert(digit(1) == v / 100);
    assert(digit(2) == v / 10 % 10);
    assert(digit(3) == v % 10);
    assert forall|k: int| 1 <= k < 4 implies 0 <= #[trigger] digit(k) <= 9 by {
        assert(k == 1 || k == 2 || k == 3);
    }
}

/// Changing a channel adds to it, as far as its range from 0 to 255 goes, and
/// changes nothing else but that the typed digits are forgotten.
pub proof fn law_adjusting_adds(s: PickerState, delta: int)
    requires
        s.wf(),
    ensures
        ({
            let before = s.rgb[s.channel as int];
            let after = s.adjusted(delta).rgb[s.channel as int];
            &&& 0 <= before + delta <= 255 ==> after == before + delta
            &&& before + delta < 0 ==> after == 0
            &&& before + delta > 255 ==> after == 255
        }),
        forall|ch: int|
            0 <= ch < 3 && ch != s.channel ==> #[trigger] s.adjusted(delta).rgb[ch] == s.rgb[ch],
        s.adjusted(delta).rgb.len() == 3,
        s.adjusted(delta).channel == s.channel,
        s.adjusted(delta).orig == s.orig,
        s.adjusted(delta).typed.len() == 0,
{
}

/// A change that stays within the channel's range is undone by the opposite one.
pub proof fn law_adjusting_back(s: PickerState, delta: int)
    requires
        s.wf(),
        0 <= s.rgb[s.channel as int] + delta <= 255,
    ensures
        s.adjusted(delta).adjusted(-delta).rgb == s.rgb,
{
    assert(s.adjusted(delta).adjusted(-delta).rgb =~= s.rgb);
}

/// The arrows and page keys change the channel that has the focus: left and down
/// the page towards 0, right and up the page towards 255, by 1 with an arrow alone
/// and by 16 with the control key or a page key.
pub proof fn law_keys_change_by_steps(s: PickerState, key: KeyEvent)
    requires
        s.wf(),
    ensures
        ({
            let before = s.rgb[s.channel as int] as int;
            let after = key_handled(s, key).rgb[s.channel as int] as int;
            let below = |n: int|
                if n < 0 {
                    0
                } else {
                    n
                };
            let above = |n: int|
                if n > 255 {
                    255
                } else {
                    n
                };
            &&& key.code is Left && !key.control ==> after == below(before - 1)
            &&& key.code is Right && !key.control ==> after == above(before + 1)
            &&& key.code is Left && key.control ==> after == below(before - 16)
            &&& key.code is Right && key.control ==> after == above(before + 16)
            &&& key.code is PageDown ==> after == below(before - 16)
            &&& key.code is PageUp ==> after == above(before + 16)
            &&& key.code is Left || key.code is Right || key.code is PageDown || key.code is PageUp
                ==> key_handled(s, key).channel == s.channel && key_handled(s, key).typed.len() == 0
        }),
{
}

/// The arrows up and down, and `k` and `j`, move the focus by one channel, not
/// beyond the first and the last, leave the colour alone and forget the typed
/// digits.
pub proof fn law_keys_move_focus(s: PickerState, key: KeyEvent)
    requires
        s.wf(),
    ensures
        ({
            let up = key.code is Up || key.code == KeyCode::Char('k');
            let down = key.code is Down || key.code == KeyCode::Char('j');
            let next = key_handled(s, key);
            &&& up && s.channel > 0 ==> next.channel == s.channel - 1
            &&& up && s.channel == 0 ==> next.channel == 0
            &&& down && s.channel < 2 ==> next.channel == s.channel + 1
            &&& down && s.channel == 2 ==> next.channel == 2
            &&& up || down ==> next.rgb == s.rgb && next.typed.len() == 0
            &&& !up && !down ==> next.channel == s.channel
        }),
{
}

/// Giving a channel the focus moves it there, to the last one where there is no
/// such channel, and leaves the colour alone.
pub proof fn law_focus_goes_where_told(s: PickerState, channel: int)
    requires
        s.wf(),
        0 <= channel,
    ensures
        channel <= 2 ==> s.focused(channel).channel == channel,
        channel > 2 ==> s.focused(channel).channel == 2,
        s.focused(channel).rgb == s.rgb,
        s.focused(channel).orig == s.orig,
        s.focused(channel).typed.len() == 0,
{
}

/// Each digit makes the typed number ten times as large and adds itself, the
/// channel shows it up to 255, and a fourth digit begins anew.
pub proof fn law_digits_make_a_number(s: PickerState, a: u8, b: u8, c: u8, d: u8)
    requires
        s.wf(),
        s.typed.len() == 0,
        a <= 9,
        b <= 9,
        c <= 9,
        d <= 9,
    ensures
        ({
            let at = s.channel as int;
            let one = s.typed_digit(a);
            let two = one.typed_digit(b);
            let three = two.typed_digit(c);
            let four = three.typed_digit(d);
            let number = a * 100 + b * 10 + c;
            &&& one.rgb[at] == a
            &&& two.rgb[at] == a * 10 + b
            &&& number <= 255 ==> three.rgb[at] == number
            &&& number > 255 ==> three.rgb[at] == 255
            &&& four == s.typed_digit(d)
            &&& three.channel == s.channel
        }),
{
    let none = Seq::<u8>::empty();
    let one = none.push(a);
    let two = one.push(b);
    let three = two.push(c);
    assert(s.typed =~= none);
    assert(one.drop_last() =~= none);
    assert(two.drop_last() =~= one);
    assert(three.drop_last() =~= two);
    assert(decimal(none) == 0);
    assert(decimal(one) == a);
    assert(decimal(two) == a * 10 + b);
    assert(decimal(three) == a * 100 + b * 10 + c);
    let four = s.typed_digit(a).typed_digit(b).typed_digit(c).typed_digit(d);
    assert(four.typed =~= s.typed_digit(d).typed);
    assert(four.rgb =~= s.typed_digit(d).rgb);
}

/// Backspace takes back the digit typed last, as long as the number had room for
/// it, and the channel shows what it showed before the digit; the number without
/// digits counts as 0.
pub proof fn law_backspace_takes_digit_back(s: PickerState, digit: u8)
    requires
        s.wf(),
        s.typed.len() < 3,
        digit <= 9,
    ensures
        s.typed_digit(digit).digit_deleted().typed == s.typed,
        s.typed.len() > 0 ==> s.typed_digit(digit).digit_deleted() == s.digit_deleted().typed_digit(
            s.typed.last(),
        ),
        s.typed.len() == 0 ==> s.typed_digit(digit).digit_deleted().rgb[s.channel as int] == 0,
        s.typed.len() == 0 ==> s.digit_deleted().rgb[s.channel as int] == 0,
{
    assert(s.typed.push(digit).drop_last() =~= s.typed);
    assert(decimal(Seq::<u8>::empty()) == 0);
    let back = s.typed_digit(digit).digit_deleted();
    if s.typed.len() > 0 {
        assert(s.typed.drop_last().push(s.typed.last()) =~= s.typed);
        let again = s.digit_deleted().typed_digit(s.typed.last());
        assert(back.rgb =~= again.rgb);
    } else {
        assert(s.typed =~= Seq::<u8>::empty());
    }
}

/// A digit key types the digit it shows.
pub proof fn law_digit_keys_type_digits(s: PickerState, key: KeyEvent, n: u8)
    requires
        s.wf(),
        n <= 9,
        key.code is Char,
        hex_value(key.code->Char_0) == n,
    ensures
        key_handled(s, key) == s.typed_digit(n),
        key_action(key) == ColorPickerAction::Changed,
{
}

/// The filled part of a bar comes first and is in proportion to the value: so
/// many cells that one more would be too many.
pub proof fn law_bar_shows_the_value(value: u8, cells: int) -> (filled: int)
    requires
        cells >= 1,
    ensures
        0 <= filled <= cells,
        filled * 255 <= value * cells < (filled + 1) * 255,
        bar_text(value, cells).len() == cells,
        forall|k: int| 0 <= k < filled ==> #[trigger] bar_text(value, cells)[k] == '\u{2588}',
        forall|k: int| filled <= k < cells ==> #[trigger] bar_text(value, cells)[k] == '\u{2591}',
{
    law_bar_in_proportion(value, cells);
    let filled = filled_cells(value, cells);
    let all = value * cells;
    assert(filled * 255 <= all < (filled + 1) * 255) by (nonlinear_arith)
        requires
            filled == all / 255,
    ;
    filled
}

/// The line of a channel shows its name behind a mark where it has the focus, its
/// bar and its value, whichever channel it is.
pub proof fn law_channel_is_shown(
    s: PickerState,
    style: ColorPickerStyle,
    name: Seq<char>,
    ch: int,
)
    requires
        s.wf(),
        0 <= ch < 3,
    ensures
        ({
            let line = channel_line(s, style, name, ch);
            let label = line[0].content;
            let width = line[1].content.len();
            &&& line.len() == 3
            &&& label.len() == name.len() + 3
            &&& label.subrange(2, 2 + name.len() as int) == name
            &&& label[1] == ' ' && label.last() == ' '
            &&& s.channel == ch ==> label[0] == '\u{203a}' && line[0].style == style.label_focused
            &&& s.channel != ch ==> label[0] == ' ' && line[0].style == style.label
            &&& line[1].content == bar_text(s.rgb[ch], width as int)
            &&& style.bar_width > 0 ==> width == style.bar_width
            &&& style.bar_width == 0 ==> width == 1
            &&& line[1].style == style.bar
            &&& line[2].content == value_text(s.rgb[ch])
            &&& line[2].style == style.value
        }),
{
    assert(channel_line(s, style, name, ch)[0].content.subrange(2, 2 + name.len() as int) =~= name);
}

/// The swatch is in the colour being picked, with its hexadecimal form behind it.
pub proof fn law_swatch_shows_the_colour(rgb: Seq<u8>, style: ColorPickerStyle)
    requires
        rgb.len() == 3,
    ensures
        ({
            let line = swatch_line(rgb, style);
            &&& line.len() == 3
            &&& line[0].style.bg == Some(Color::Rgb(rgb[0], rgb[1], rgb[2]))
            &&& line[0].style.fg is None && line[0].style.underline_color is None
            &&& line[0].style.add_modifier == 0 && line[0].style.sub_modifier == 0
            &&& line[0].content.len() == 6 && line[1].content.len() == 2
            &&& forall|k: int| 0 <= k < 6 ==> #[trigger] line[0].content[k] == ' '
            &&& forall|k: int| 0 <= k < 2 ==> #[trigger] line[1].content[k] == ' '
            &&& line[1].style.bg is None
            &&& line[2].content == hex_text(rgb)
            &&& line[2].style == style.value
        }),
{
    reveal_strlit("      ");
    reveal_strlit("  ");
}

/// Each part of a picker is drawn in its own row: the swatch in the first, the
/// channels from the third on, and the hint, where there is one, in the sixth, unless
/// that row is empty. Only the hint is wrapped.
pub proof fn law_parts_have_their_rows(
    s: PickerState,
    style: ColorPickerStyle,
    labels: ColorPickerLabels<'_>,
    rows: Seq<Rect>,
)
    requires
        s.wf(),
        rows.len() == 6,
    ensures
        ({
            let lines = picker_lines(s, style, labels, rows);
            let hinted = labels.hint is Some && rows[5].height > 0;
            &&& lines[0].line == swatch_line(s.rgb, style)
            &&& lines[0].area == rows[0] && !lines[0].wrapped
            &&& forall|ch: int|
                0 <= ch < 3 ==> (#[trigger] lines[ch + 1]).line == channel_line(
                    s,
                    style,
                    labels.channels@[ch]@,
                    ch,
                ) && lines[ch + 1].area == rows[ch + 2] && !lines[ch + 1].wrapped
            &&& hinted ==> {
                &&& lines.len() == 5
                &&& lines[4].area == rows[5] && lines[4].wrapped
                &&& lines[4].line.len() == 1
                &&& lines[4].line[0].content == labels.hint->0@
                &&& lines[4].line[0].style == style.hint
            }
            &&& !hinted ==> lines.len() == 4
        }),
{
    let lines = picker_lines(s, style, labels, rows);
    assert forall|ch: int| 0 <= ch < 3 implies (#[trigger] lines[ch + 1]).line == channel_line(
        s,
        style,
        labels.channels@[ch]@,
        ch,
    ) && lines[ch + 1].area == rows[ch + 2] && !lines[ch + 1].wrapped by {
        assert(ch == 0 || ch == 1 || ch == 2);
    }
}

/// In an area with room for them all, the rows are one cell high and follow one
/// another from the area's top, but for the last, which reaches down to its end.
pub proof fn law_rows_follow_each_other(area: Rect, k: int)
    requires
        0 <= k < 6,
        area.height >= 5,
        area.y + area.height <= u16::MAX,
    ensures
        picker_row(area, k).x == area.x,
        picker_row(area, k).width == area.width,
        picker_row(area, 0).y == area.y,
        k < 5 ==> picker_row(area, k).height == 1,
        k < 5 ==> picker_row(area, k + 1).y == picker_row(area, k).y + picker_row(area, k).height,
        k == 5 ==> picker_row(area, k).y + picker_row(area, k).height == area.y + area.height,
{
}

/// Enter accepts and Escape cancels; the arrows, the page keys, Backspace, `k`, `j`
/// and the digits are handled, and no other key is.
pub proof fn law_keys_are_answered(key: KeyEvent)
    ensures
        key_action(key) == ColorPickerAction::Accept <==> key.code is Enter,
        key_action(key) == ColorPickerAction::Cancel <==> key.code is Esc,
        key_action(key) == ColorPickerAction::Changed <==> {
            ||| key.code is Up
            ||| key.code is Down
            ||| key.code is Left
            ||| key.code is Right
            ||| key.code is PageUp
            ||| key.code is PageDown
            ||| key.code is Backspace
            ||| key.code matches KeyCode::Char(c) && (c == 'k' || c == 'j' || 0 <= hex_value(c)
                <= 9)
        },
{
}

/// Setting the colour sets it, whatever was typed, and keeps the focus and the
/// colour the picker was opened with; so whatever key was pressed, going back to
/// that colour brings it back.
pub proof fn law_going_back_brings_the_colour_back(s: PickerState, key: KeyEvent, rgb: Seq<u8>)
    requires
        s.wf(),
        rgb.len() == 3,
    ensures
        ({
            let next = s.recoloured(rgb);
            let pressed = key_handled(s, key);
            &&& next.rgb == rgb
            &&& next.typed.len() == 0
            &&& next.channel == s.channel && next.orig == s.orig
            &&& pressed.recoloured(pressed.orig).rgb == s.orig
        }),
{
}

/// A style that switches a modifier on changes nothing else.
pub proof fn law_modifier_changes_nothing_else(modifier: u16)
    ensures
        modified(modifier).add_modifier == modifier,
        modified(modifier).sub_modifier == 0,
        modified(modifier).fg is None,
        modified(modifier).bg is None,
        modified(modifier).underline_color is None,
{
}

} // verus!
