//! 12-hour clock formatting and the timed status line.
//!
//! The core never samples the clock: the caller supplies the hour and
//! minute (and the rasterized glyphs of the formatted text), and the core
//! formats and renders them.

use vstd::prelude::*;

use crate::canvas::Screen;
use crate::layout::{centered_x, glyph_views, glyphs_wf, text_grid, total_advance, Glyph};
use crate::transport::HidAdapter;

verus! {

/// The character of one decimal digit.
pub open spec fn digit_char(d: int) -> char {
    if d == 0 {
        '0'
    } else if d == 1 {
        '1'
    } else if d == 2 {
        '2'
    } else if d == 3 {
        '3'
    } else if d == 4 {
        '4'
    } else if d == 5 {
        '5'
    } else if d == 6 {
        '6'
    } else if d == 7 {
        '7'
    } else if d == 8 {
        '8'
    } else {
        '9'
    }
}

/// The characters of a time of day on the 12-hour clock: zero-padded hour
/// (midnight and noon shown as 12), a colon, zero-padded minute, a space,
/// and the AM/PM marker.
pub open spec fn time_chars(hour: int, minute: int) -> Seq<char> {
    let h12 = if hour % 12 == 0 {
        12int
    } else {
        hour % 12
    };
    seq![
        digit_char(h12 / 10),
        digit_char(h12 % 10),
        ':',
        digit_char(minute / 10),
        digit_char(minute % 10),
        ' ',
        if hour < 12 {
            'A'
        } else {
            'P'
        },
        'M',
    ]
}

/// The character of one decimal digit.
fn digit(d: u8) -> (r: char)
    requires
        d < 10,
    ensures
        r == digit_char(d as int),
{
    match d {
        0 => '0',
        1 => '1',
        2 => '2',
        3 => '3',
        4 => '4',
        5 => '5',
        6 => '6',
        7 => '7',
        8 => '8',
        _ => '9',
    }
}

/// Formats a time of day as the 12-hour clock string `HH:MM AM` / `HH:MM
/// PM`, hours zero-padded and midnight and noon rendered as 12.
pub fn format_time_12h(hour: u8, minute: u8) -> (r: Vec<char>)
    requires
        hour < 24,
        minute < 60,
    ensures
        r@ == time_chars(hour as int, minute as int),
{
    let h12: u8 = if hour % 12 == 0 {
        12
    } else {
        hour % 12
    };
    let mut out: Vec<char> = Vec::new();
    out.push(digit(h12 / 10));
    out.push(digit(h12 % 10));
    out.push(':');
    out.push(digit(minute / 10));
    out.push(digit(minute % 10));
    out.push(' ');
    out.push(
        if hour < 12 {
            'A'
        } else {
            'P'
        },
    );
    out.push('M');
    proof {
        assert(out@ =~= time_chars(hour as int, minute as int));
    }
    out
}

impl<T: HidAdapter> Screen<T> {
    /// Renders the given time of day, formatted on the 12-hour clock,
    /// centered at a fixed vertical offset of 10 pixels.  The caller
    /// supplies one rasterized glyph per character of the formatted string,
    /// in order.
    pub fn draw_time(&mut self, hour: u8, minute: u8, glyphs: &Vec<Glyph>, font_size: usize)
        requires
            old(self)@.wf(),
            hour < 24,
            minute < 60,
            glyphs_wf(glyph_views(glyphs@)),
            glyphs@.len() == time_chars(hour as int, minute as int).len(),
            forall|i: int|
                0 <= i < glyphs@.len() ==> (#[trigger] glyph_views(glyphs@)[i]).ch == time_chars(
                    hour as int,
                    minute as int,
                )[i],
            old(self)@.width <= isize::MAX,
            font_size <= isize::MAX,
            total_advance(glyph_views(glyphs@), (font_size / 24) as int) <= isize::MAX,
            forall|i: int|
                0 <= i < glyphs@.len() ==> 10 + (#[trigger] glyph_views(glyphs@)[i]).height
                    <= isize::MAX,
        ensures
            final(self)@.wf(),
            final(self)@.width == old(self)@.width,
            final(self)@.height == old(self)@.height,
            final(self)@.prev_packets == old(self)@.prev_packets,
            final(self)@.data.len() == old(self)@.data.len(),
            final(self)@.grid() == text_grid(
                old(self)@.grid(),
                old(self)@.width,
                glyph_views(glyphs@),
                centered_x(
                    old(self)@.width,
                    total_advance(glyph_views(glyphs@), (font_size / 24) as int),
                ),
                10,
                (font_size / 24) as int,
            ),
    {
        self.render_centered(glyphs, font_size, 10)
    }
}

} // verus!
