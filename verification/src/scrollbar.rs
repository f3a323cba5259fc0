//! Vertical scrollbars.
//!
//! [`scroll_for_track_row`] turns a click on a scrollbar's track into a scroll
//! offset, in proportion, and [`render_scrollbar`] says what thumb to draw for an
//! offset. Neither knows what is being scrolled.

use vstd::arithmetic::power2::{lemma2_to64, lemma_pow2_pos, lemma_pow2_unfold, pow2};
use vstd::prelude::*;

use crate::geometry::Rect;
use crate::style::{plain_style, Style};
use crate::text::{greatest, least};

verus! {

// ---------------------------------------------------------------------------
// Model
// ---------------------------------------------------------------------------

/// The integer nearest to `n / d`; of two as near, the even one.
pub open spec fn nearest_even(n: int, d: int) -> int {
    let q = n / d;
    let rest = n % d;
    if 2 * rest < d || (2 * rest == d && q % 2 == 0) {
        q
    } else {
        q + 1
    }
}

/// The least number of doublings that brings `n` to `bound`.
pub open spec fn doublings(n: int, bound: int) -> nat
    decreases greatest(bound - n, 0),
{
    if n <= 0 || n >= bound {
        0
    } else {
        1 + doublings(2 * n, bound)
    }
}

/// The binary exponent of the double nearest to `n / d`, for `0 < n <= d`: that
/// double is a 53-bit integer times two to the minus this.
pub open spec fn quotient_exponent(n: int, d: int) -> nat {
    doublings(n, d * 0x10_0000_0000_0000)
}

/// The 53-bit integer of the double nearest to `n / d`.
pub open spec fn quotient_mantissa(n: int, d: int) -> int {
    nearest_even(n * pow2(quotient_exponent(n, d)), d)
}

/// The number of low bits that a double drops of the integer `n`.
pub open spec fn dropped_bits(n: int) -> nat
    decreases n,
{
    if n < 0x20_0000_0000_0000 {
        0
    } else {
        1 + dropped_bits(n / 2)
    }
}

/// The integer `n` as a double holds it: rounded to 53 bits.
pub open spec fn as_double(n: int) -> int {
    let unit = pow2(dropped_bits(n)) as int;
    nearest_even(n, unit) * unit
}

/// `(n / d) * max` computed in double precision, each of the two operations
/// rounding to the nearest double, then rounded to the nearest integer, halves
/// upwards.
pub open spec fn scaled(n: int, d: int, max: int) -> int {
    if n == 0 {
        0
    } else {
        let one = pow2(quotient_exponent(n, d)) as int;
        (2 * as_double(quotient_mantissa(n, d) * max) + one) / (2 * one)
    }
}

/// The number of steps from the first to the last row of a track, at least one.
pub open spec fn track_steps(track: Rect) -> int {
    greatest(track.height - 1, 1)
}

/// The row of a track that is nearest to the terminal row `row`, counted from
/// its top.
pub open spec fn track_row(track: Rect, row: u16) -> int {
    least(greatest(row - track.y, 0), greatest(track.height - 1, 0))
}

/// The scroll offset for a row of a track.
pub open spec fn track_scroll(track: Rect, row: u16, max_scroll: u16) -> int {
    if track.height == 0 || max_scroll == 0 {
        0
    } else {
        scaled(track_row(track, row), track_steps(track), max_scroll as int)
    }
}

// ---------------------------------------------------------------------------
// Arithmetic
// ---------------------------------------------------------------------------

proof fn lemma_nearest_even(n: int, d: int)
    requires
        n >= 0,
        d > 0,
    ensures
        2 * (nearest_even(n, d) * d - n) <= d,
        2 * (n - nearest_even(n, d) * d) <= d,
        nearest_even(n, d) >= 0,
{
    vstd::arithmetic::div_mod::lemma_fundamental_div_mod(n, d);
    vstd::arithmetic::div_mod::lemma_mod_bound(n, d);
    vstd::arithmetic::div_mod::lemma_div_pos_is_pos(n, d);
    let q = n / d;
    assert(q * d == d * q) by (nonlinear_arith);
    assert((q + 1) * d == q * d + d) by (nonlinear_arith);
}

/// What the doublings lead to.
proof fn lemma_doublings(n: int, bound: int)
    requires
        0 < n,
        0 < bound,
    ensures
        n * pow2(doublings(n, bound)) >= bound,
        n < bound ==> n * pow2(doublings(n, bound)) < 2 * bound,
        n >= bound ==> doublings(n, bound) == 0,
    decreases greatest(bound - n, 0),
{
    let k = doublings(n, bound);
    if n >= bound {
        assert(pow2(0) == 1) by {
            lemma2_to64();
        }
        assert(n * 1 == n);
    } else {
        lemma_doublings(2 * n, bound);
        lemma_pow2_unfold(k);
        let p = pow2((k - 1) as nat) as int;
        assert((2 * n) * p == n * (2 * p)) by (nonlinear_arith);
        if 2 * n >= bound {
            lemma2_to64();
            assert(n * 2 < 2 * bound);
        }
    }
}

proof fn lemma_dropped_bits(n: int)
    requires
        n >= 0,
    ensures
        n < 0x20_0000_0000_0000 * pow2(dropped_bits(n)),
        dropped_bits(n) > 0 ==> pow2(dropped_bits(n)) * 0x10_0000_0000_0000 <= n,
    decreases n,
{
    lemma2_to64();
    if n >= 0x20_0000_0000_0000 {
        lemma_dropped_bits(n / 2);
        lemma_pow2_unfold(dropped_bits(n));
    }
}

/// The number nearest to `n / d` times `max`, computed as the model says, is an
/// integer nearest to the exact value.
proof fn lemma_scaled_nearest(n: int, d: int, max: int)
    requires
        0 <= n <= d,
        0 < d < 0x1_0000,
        0 < max < 0x1_0000,
    ensures
        2 * (scaled(n, d, max) * d - n * max) <= d,
        2 * (n * max - scaled(n, d, max) * d) <= d,
        scaled(n, d, max) >= 0,
{
    if n == 0 {
        assert(0 * max == 0 && 0 * d == 0);
    } else {
        let k = quotient_exponent(n, d);
        let one = pow2(k) as int;
        let m = quotient_mantissa(n, d);
        let product = m * max;
        let unit = pow2(dropped_bits(product)) as int;
        let p = as_double(product);
        let r = scaled(n, d, max);
        lemma_pow2_pos(k);
        lemma_pow2_pos(dropped_bits(product));
        lemma_doublings(n, d * 0x10_0000_0000_0000);
        // one >= 2^52, because n <= d.
        assert(one >= 0x10_0000_0000_0000) by (nonlinear_arith)
            requires
                n * one >= d * 0x10_0000_0000_0000,
                0 < n <= d,
        ;
        assert(n * one <= 2 * (d * 0x10_0000_0000_0000)) by {
            if n >= d * 0x10_0000_0000_0000 {
                assert(d < d * 0x10_0000_0000_0000) by (nonlinear_arith)
                    requires
                        d > 0,
                ;
            }
        }
        lemma_nearest_even(n * one, d);
        // m <= 2^53.
        assert(m <= 0x20_0000_0000_0001) by (nonlinear_arith)
            requires
                2 * (m * d - n * one) <= d,
                n * one <= 2 * (d * 0x10_0000_0000_0000),
                d > 0,
        ;
        assert(0 <= product) by (nonlinear_arith)
            requires
                m >= 0,
                max > 0,
                product == m * max,
        ;
        assert(product <= 0x20_0000_0000_0001 * 0x1_0000) by (nonlinear_arith)
            requires
                0 <= m <= 0x20_0000_0000_0001,
                0 < max < 0x1_0000,
                product == m * max,
        ;
        lemma_dropped_bits(product);
        assert(unit <= 0x4_0000) by {
            lemma2_to64();
        }
        lemma_nearest_even(product, unit);
        // r is the floor of p / one + 1 / 2.
        assert(0 <= p) by (nonlinear_arith)
            requires
                p == nearest_even(product, unit) * unit,
                nearest_even(product, unit) >= 0,
                unit > 0,
        ;
        let top = 2 * p + one;
        vstd::arithmetic::div_mod::lemma_fundamental_div_mod(top, 2 * one);
        vstd::arithmetic::div_mod::lemma_mod_bound(top, 2 * one);
        vstd::arithmetic::div_mod::lemma_div_pos_is_pos(top, 2 * one);
        assert((2 * one) * r == 2 * (r * one)) by (nonlinear_arith);
        assert(2 * (r * one - p) <= one);
        assert(2 * (p - r * one) <= one);
        lemma_error_sum(n, d, max, one, m, unit, p, r);
    }
}

/// Adds up the errors of the three roundings.
proof fn lemma_error_sum(n: int, d: int, max: int, one: int, m: int, unit: int, p: int, r: int)
    requires
        0 < d < 0x1_0000,
        0 < max < 0x1_0000,
        one >= 0x10_0000_0000_0000,
        0 < unit <= 0x4_0000,
        2 * (m * d - n * one) <= d,
        2 * (n * one - m * d) <= d,
        2 * (p - m * max) <= unit,
        2 * (m * max - p) <= unit,
        2 * (r * one - p) <= one,
        2 * (p - r * one) <= one,
    ensures
        2 * (r * d - n * max) <= d,
        2 * (n * max - r * d) <= d,
{
    let a = r * one - p;
    let b = p - m * max;
    let c = m * d - n * one;
    let whole = r * d - n * max;
    assert(whole * one == d * a + d * b + max * c) by {
        let u = r * one;
        let v = m * max;
        let x = m * d;
        let y = n * one;
        assert(d * (u - p) == d * u - d * p) by (nonlinear_arith);
        assert(d * (p - v) == d * p - d * v) by (nonlinear_arith);
        assert(max * (x - y) == max * x - max * y) by (nonlinear_arith);
        assert((r * d - n * max) * one == (r * d) * one - (n * max) * one) by (nonlinear_arith);
        assert((r * d) * one == d * (r * one)) by (nonlinear_arith);
        assert((n * max) * one == max * (n * one)) by (nonlinear_arith);
        assert(d * (m * max) == max * (m * d)) by (nonlinear_arith);
    }
    assert(2 * (d * a) <= d * one && -(d * one) <= 2 * (d * a)) by (nonlinear_arith)
        requires
            2 * a <= one,
            -one <= 2 * a,
            d > 0,
    ;
    assert(2 * (d * b) <= d * unit && -(d * unit) <= 2 * (d * b)) by (nonlinear_arith)
        requires
            2 * b <= unit,
            -unit <= 2 * b,
            d > 0,
    ;
    assert(2 * (max * c) <= max * d && -(max * d) <= 2 * (max * c)) by (nonlinear_arith)
        requires
            2 * c <= d,
            -d <= 2 * c,
            max > 0,
    ;
    assert(0 <= d * unit <= 0x1_0000 * 0x4_0000) by (nonlinear_arith)
        requires
            0 < d < 0x1_0000,
            0 < unit <= 0x4_0000,
    ;
    assert(0 <= max * d <= 0x1_0000 * 0x1_0000) by (nonlinear_arith)
        requires
            0 < d < 0x1_0000,
            0 < max < 0x1_0000,
    ;
    // The last two are together smaller than one.
    assert(2 * whole < d + 1) by (nonlinear_arith)
        requires
            2 * (whole * one) <= d * one + 0x1_0000 * 0x4_0000 + 0x1_0000 * 0x1_0000,
            one >= 0x10_0000_0000_0000,
    ;
    assert(-(2 * whole) < d + 1) by (nonlinear_arith)
        requires
            -(d * one + 0x1_0000 * 0x4_0000 + 0x1_0000 * 0x1_0000) <= 2 * (whole * one),
            one >= 0x10_0000_0000_0000,
    ;
}

// ---------------------------------------------------------------------------
// Laws
// ---------------------------------------------------------------------------

/// A click scrolls in proportion: to an offset nearest to the same share of
/// `max_scroll` as the clicked row is of the track, and never past `max_scroll`.
pub proof fn law_scroll_in_proportion(track: Rect, row: u16, max_scroll: u16)
    requires
        track.height > 0,
    ensures
        0 <= track_scroll(track, row, max_scroll) <= max_scroll,
        2 * (track_scroll(track, row, max_scroll) * track_steps(track) - track_row(track, row)
            * max_scroll) <= track_steps(track),
        2 * (track_row(track, row) * max_scroll - track_scroll(track, row, max_scroll)
            * track_steps(track)) <= track_steps(track),
{
    let n = track_row(track, row);
    let d = track_steps(track);
    let max = max_scroll as int;
    let r = track_scroll(track, row, max_scroll);
    if max > 0 {
        lemma_scaled_nearest(n, d, max);
        assert(r <= max) by (nonlinear_arith)
            requires
                2 * (r * d - n * max) <= d,
                n <= d,
                d > 0,
                max > 0,
        ;
    } else {
        assert(n * max == 0 && r * d == 0) by (nonlinear_arith)
            requires
                max == 0,
                r == 0,
        ;
    }
}

/// A click further down never scrolls less far.
pub proof fn law_lower_rows_scroll_further(track: Rect, upper: u16, lower: u16, max_scroll: u16)
    requires
        upper <= lower,
    ensures
        track_scroll(track, upper, max_scroll) <= track_scroll(track, lower, max_scroll),
{
    let a = track_row(track, upper);
    let b = track_row(track, lower);
    let d = track_steps(track);
    let max = max_scroll as int;
    if track.height > 0 && max > 0 && a < b {
        law_scroll_in_proportion(track, upper, max_scroll);
        law_scroll_in_proportion(track, lower, max_scroll);
        let r = track_scroll(track, upper, max_scroll);
        let s = track_scroll(track, lower, max_scroll);
        assert(r <= s) by (nonlinear_arith)
            requires
                2 * (r * d - a * max) <= d,
                2 * (b * max - s * d) <= d,
                a < b,
                max > 0,
                d > 0,
        ;
    }
}

/// A click on the track's first row or above it scrolls to the top; one on its
/// last row or below it scrolls to the bottom.
pub proof fn law_scroll_ends(track: Rect, row: u16, max_scroll: u16)
    requires
        track.height > 1,
    ensures
        row <= track.y ==> track_scroll(track, row, max_scroll) == 0,
        row >= track.y + track.height - 1 ==> track_scroll(track, row, max_scroll) == max_scroll,
{
    if row >= track.y + track.height - 1 {
        law_scroll_in_proportion(track, row, max_scroll);
        let r = track_scroll(track, row, max_scroll);
        let d = track_steps(track);
        let max = max_scroll as int;
        assert(r >= max) by (nonlinear_arith)
            requires
                2 * (d * max - r * d) <= d,
                d > 0,
        ;
    }
}

/// A row of the track counts as itself: a click on it scrolls to an offset nearest
/// to the share of `max_scroll` that the row has come of the way from the track's
/// first row to its last. A track of one row scrolls to the top.
pub proof fn law_click_on_a_row_counts_as_itself(track: Rect, row: u16, max_scroll: u16)
    requires
        track.y <= row < track.y + track.height,
    ensures
        ({
            let scroll = track_scroll(track, row, max_scroll);
            let way = row - track.y;
            let whole = track.height - 1;
            &&& 2 * (scroll * whole - way * max_scroll) <= whole
            &&& 2 * (way * max_scroll - scroll * whole) <= whole
            &&& track.height == 1 ==> scroll == 0
        }),
{
    law_scroll_in_proportion(track, row, max_scroll);
    if track.height == 1 {
        assert((row - track.y) * max_scroll == 0) by (nonlinear_arith)
            requires
                row - track.y == 0,
        ;
    }
}

/// A click above the track counts as one on its first row, and a click below it as
/// one on its last.
pub proof fn law_click_outside_counts_as_the_end(track: Rect, row: u16, max_scroll: u16)
    requires
        track.height > 0,
        track.y + track.height <= u16::MAX,
    ensures
        row < track.y ==> track_scroll(track, row, max_scroll) == track_scroll(
            track,
            track.y,
            max_scroll,
        ),
        row >= track.y + track.height ==> track_scroll(track, row, max_scroll) == track_scroll(
            track,
            (track.y + track.height - 1) as u16,
            max_scroll,
        ),
{
}

/// A thumb is drawn exactly where there is room for it and more rows than are in
/// sight, as far along as rows are scrolled past: at the start with none, and at the
/// end with the last row in sight.
pub proof fn law_thumb_shows_how_far(area: Rect, total: usize, capacity: usize, start: usize)
    ensures
        ({
            let shown = thumb(area, total as int, capacity as int, start);
            &&& shown is Some <==> area.width > 0 && area.height > 0 && total > capacity
            &&& shown matches Some(at) ==> {
                &&& at.position == start
                &&& at.content_length > 0
                &&& start + capacity == total <==> at.position == at.content_length
            }
        }),
{
}

// ---------------------------------------------------------------------------
// Scrolling
// ---------------------------------------------------------------------------

/// The integer nearest to `n / d`; of two as near, the even one.
fn round_to_even(n: u128, d: u128) -> (r: u128)
    requires
        0 < d < 0x1_0000_0000_0000_0000_0000_0000_0000,
        n < 0x1_0000_0000_0000_0000_0000_0000_0000,
    ensures
        r == nearest_even(n as int, d as int),
{
    let q: u128 = n / d;
    let rest: u128 = n % d;
    proof {
        vstd::arithmetic::div_mod::lemma_div_is_ordered_by_denominator(n as int, 1, d as int);
        assert(n as int / 1 == n);
    }
    if 2 * rest < d || (2 * rest == d && q % 2 == 0) {
        q
    } else {
        q + 1
    }
}

/// `(n / d) * max` in double precision, rounded to an integer.
fn scale(n: u16, d: u16, max: u16) -> (r: u16)
    requires
        n <= d,
        0 < d,
        0 < max,
    ensures
        r == scaled(n as int, d as int, max as int),
{
    proof {
        lemma_scaled_nearest(n as int, d as int, max as int);
        let r = scaled(n as int, d as int, max as int);
        assert(r <= max) by (nonlinear_arith)
            requires
                2 * (r * d - n * max) <= d,
                n <= d,
                d > 0,
                max > 0,
        ;
    }
    if n == 0 {
        return 0;
    }
    // The quotient as an integer over a power of two.
    let bound: u128 = d as u128 * 0x10_0000_0000_0000;
    let ghost k = quotient_exponent(n as int, d as int);
    let mut num: u128 = n as u128;
    let mut one: u128 = 1;
    let ghost mut done: nat = 0;
    proof {
        lemma2_to64();
        lemma_doublings(n as int, bound as int);
    }
    while num < bound
        invariant
            0 < n <= d,
            bound == d * 0x10_0000_0000_0000,
            0 < num < 2 * bound,
            1 <= one <= num,
            num == n * one,
            one == pow2(done),
            k == done + doublings(num as int, bound as int),
        decreases greatest(bound - num, 0),
    {
        proof {
            lemma_pow2_unfold(done + 1);
            assert(n * (2 * one) == 2 * (n * one)) by (nonlinear_arith);
            done = done + 1;
        }
        num = num * 2;
        one = one * 2;
    }
    let mantissa: u128 = round_to_even(num, d as u128);
    proof {
        lemma_nearest_even(num as int, d as int);
        assert(mantissa <= 0x20_0000_0000_0001) by (nonlinear_arith)
            requires
                2 * (mantissa * d - num) <= d,
                num < 2 * (d * 0x10_0000_0000_0000),
                d > 0,
        ;
        assert(mantissa * max <= 0x20_0000_0000_0001 * 0x1_0000) by (nonlinear_arith)
            requires
                mantissa <= 0x20_0000_0000_0001,
                max <= 0x1_0000,
        ;
        assert(mantissa * max >= 0) by (nonlinear_arith);
    }
    // The product, rounded to 53 bits.
    let product: u128 = mantissa * max as u128;
    let mut high: u128 = product;
    let mut unit: u128 = 1;
    let ghost mut dropped: nat = 0;
    while high >= 0x20_0000_0000_0000
        invariant
            product <= 0x20_0000_0000_0001 * 0x1_0000,
            high <= product,
            unit == pow2(dropped),
            high * unit <= product,
            dropped_bits(product as int) == dropped + dropped_bits(high as int),
        decreases high,
    {
        proof {
            lemma_pow2_unfold(dropped + 1);
            assert(unit <= product) by (nonlinear_arith)
                requires
                    high * unit <= product,
                    high >= 1,
            ;
            assert((high / 2) * (2 * unit) <= high * unit) by (nonlinear_arith)
                requires
                    2 * (high / 2) <= high,
                    unit >= 0,
            ;
            dropped = dropped + 1;
        }
        high = high / 2;
        unit = unit * 2;
    }
    proof {
        lemma_pow2_pos(dropped);
        lemma_dropped_bits(product as int);
        assert(unit <= 0x4_0000) by {
            lemma2_to64();
        }
        lemma_nearest_even(product as int, unit as int);
    }
    let rounded: u128 = round_to_even(product, unit);
    proof {
        assert(0 <= rounded * unit) by (nonlinear_arith);
    }
    let double: u128 = rounded * unit;
    ((2 * double + one) / (2 * one)) as u16
}

/// The scroll offset for a click or a drag on the terminal row `row` of a
/// vertical scrollbar's `track`: in proportion, from the top for a row above
/// the track to `max_scroll` for one below it. Zero where there is nothing to
/// scroll.
pub fn scroll_for_track_row(track: Rect, row: u16, max_scroll: u16) -> (r: u16)
    ensures
        r == track_scroll(track, row, max_scroll),
        r <= max_scroll,
{
    if track.height == 0 || max_scroll == 0 {
        return 0;
    }
    proof {
        law_scroll_in_proportion(track, row, max_scroll);
    }
    let last: u16 = track.height - 1;
    let steps: u16 = if last > 1 {
        last
    } else {
        1
    };
    let above: u16 = row.saturating_sub(track.y);
    let rel: u16 = if above < last {
        above
    } else {
        last
    };
    scale(rel, steps, max_scroll)
}

// ---------------------------------------------------------------------------
// Drawing
// ---------------------------------------------------------------------------

/// Which edge a scrollbar sits on.
#[derive(Clone, Copy, Debug, PartialEq, Eq, Structural)]
pub enum ScrollbarOrientation {
    /// Vertical, on the right.
    VerticalRight,
    /// Vertical, on the left.
    VerticalLeft,
    /// Horizontal, at the bottom.
    HorizontalBottom,
    /// Horizontal, at the top.
    HorizontalTop,
}

/// What a scrollbar looks like.
#[derive(Debug)]
pub struct ScrollbarStyle {
    /// Which edge the bar sits on.
    pub orientation: ScrollbarOrientation,
    /// Drawn along the track; nothing is where it is `None`.
    pub track_symbol: Option<String>,
    /// Drawn for the thumb.
    pub thumb_symbol: String,
    /// Drawn at the start of the track, where there is one.
    pub begin_symbol: Option<String>,
    /// Drawn at the end of the track, where there is one.
    pub end_symbol: Option<String>,
    /// Style of the track.
    pub track_style: Style,
    /// Style of the thumb.
    pub thumb_style: Style,
}

/// A copy of a symbol.
fn copy_symbol(symbol: &Option<String>) -> (r: Option<String>)
    ensures
        r == *symbol,
{
    match symbol {
        Some(s) => Some(s.clone()),
        None => None,
    }
}

impl Clone for ScrollbarStyle {
    fn clone(&self) -> (r: Self)
        ensures
            r == *self,
    {
        ScrollbarStyle {
            orientation: self.orientation,
            track_symbol: copy_symbol(&self.track_symbol),
            thumb_symbol: self.thumb_symbol.clone(),
            begin_symbol: copy_symbol(&self.begin_symbol),
            end_symbol: copy_symbol(&self.end_symbol),
            track_style: self.track_style,
            thumb_style: self.thumb_style,
        }
    }
}

impl Default for ScrollbarStyle {
    /// A bar on the right: a line for the track and a solid thumb, without
    /// colours and without caps.
    fn default() -> (r: Self)
        ensures
            r.orientation == ScrollbarOrientation::VerticalRight,
            r.track_symbol matches Some(symbol) && symbol@ == "\u{2502}"@,
            r.thumb_symbol@ == "\u{2588}"@,
            r.begin_symbol is None,
            r.end_symbol is None,
            r.track_style == plain_style(),
            r.thumb_style == plain_style(),
    {
        ScrollbarStyle {
            orientation: ScrollbarOrientation::VerticalRight,
            track_symbol: Some("\u{2502}".to_owned()),
            thumb_symbol: "\u{2588}".to_owned(),
            begin_symbol: None,
            end_symbol: None,
            track_style: Style::default(),
            thumb_style: Style::default(),
        }
    }
}

/// How far a scrollbar's thumb is: at step `position` of `content_length`.
#[derive(Clone, Copy, Debug, PartialEq, Eq, Structural)]
pub struct Thumb {
    /// The number of rows that can be scrolled past.
    pub content_length: usize,
    /// The number of rows that are scrolled past.
    pub position: usize,
}

/// The thumb in `area` for `total` rows of which `capacity` are in sight from row
/// `start` on.
pub open spec fn thumb(area: Rect, total: int, capacity: int, start: usize) -> Option<Thumb> {
    if area.width == 0 || area.height == 0 || total <= capacity {
        None
    } else {
        Some(Thumb { content_length: (total - capacity) as usize, position: start })
    }
}

/// The thumb to draw in `area` for `total` rows of which `capacity` are in sight
/// from row `start` on; none where the area is empty or all rows are in sight.
pub fn render_scrollbar(area: Rect, total: usize, capacity: usize, start: usize) -> (r: Option<
    Thumb,
>)
    ensures
        r == thumb(area, total as int, capacity as int, start),
{
    if area.width == 0 || area.height == 0 || total <= capacity {
        None
    } else {
        Some(Thumb { content_length: total - capacity, position: start })
    }
}

} // verus!
