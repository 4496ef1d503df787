//! Text layout and glyph compositing.
//!
//! Glyphs arrive pre-rasterized (the rasterizer is an external capability):
//! one intensity byte per pixel, row-major.  Compositing flips each bitmap
//! vertically — except the glyphs the rendering policy exempts — thresholds
//! each intensity at half scale, and writes the resulting pixels onto the
//! canvas through its silent-clipping pixel writes.

use vstd::arithmetic::div_mod::{
    lemma_div_is_ordered, lemma_div_nonincreasing, lemma_div_pos_is_pos,
    lemma_fundamental_div_mod, lemma_fundamental_div_mod_converse,
    lemma_mod_division_less_than_divisor, lemma_multiply_divide_lt,
};
use vstd::arithmetic::mul::{
    lemma_mul_inequality, lemma_mul_is_commutative, lemma_mul_is_distributive_sub_other_way,
    lemma_mul_nonnegative,
};
use vstd::prelude::*;

use crate::canvas::Screen;
use crate::transport::HidAdapter;

verus! {

/// Ghost content of a glyph.
pub struct GlyphModel {
    pub ch: char,
    pub width: int,
    pub height: int,
    pub data: Seq<u8>,
}

impl GlyphModel {
    /// One intensity byte per pixel, with machine-representable bounds.
    pub open spec fn wf(self) -> bool {
        &&& 0 <= self.width <= isize::MAX
        &&& 0 <= self.height <= isize::MAX
        &&& self.width * self.height <= usize::MAX
        &&& self.data.len() == self.width * self.height
    }
}

/// One pre-rasterized glyph: the character it renders, its bitmap size in
/// pixels, and one intensity byte (0 to 255) per pixel, row-major with the
/// top row first.
pub struct Glyph {
    pub ch: char,
    pub width: usize,
    pub height: usize,
    pub data: Vec<u8>,
}

impl View for Glyph {
    type V = GlyphModel;

    open spec fn view(&self) -> GlyphModel {
        GlyphModel {
            ch: self.ch,
            width: self.width as int,
            height: self.height as int,
            data: self.data@,
        }
    }
}

/// Per-glyph rendering policy: every bitmap is flipped vertically before
/// compositing, except the full stop, which the font in use already
/// delivers in composition orientation.
pub open spec fn flip_exempt_spec(c: char) -> bool {
    c == '.'
}

/// Executable form of the rendering policy.
pub fn flip_exempt(c: char) -> (r: bool)
    ensures
        r == flip_exempt_spec(c),
{
    c == '.'
}

/// A rasterized intensity lights a pixel when it reaches half of full
/// scale.
pub open spec fn pixel_on(level: u8) -> bool {
    level >= 128
}

/// Executable form of the intensity threshold.
pub fn intensity_on(level: u8) -> (r: bool)
    ensures
        r == pixel_on(level),
{
    level >= 128
}

/// The bitmap with its rows in reverse vertical order (bottom row first):
/// entry `n` of the result, on row `n / width`, is the entry of `bitmap` at
/// the same column of row `height - 1 - n / width`.
pub fn flip_vertical(bitmap: &Vec<u8>, width: usize, height: usize) -> (r: Vec<u8>)
    requires
        bitmap@.len() == width * height,
    ensures
        r@.len() == bitmap@.len(),
        forall|n: int|
            0 <= n < r@.len() ==> #[trigger] r@[n] == bitmap@[(height as int - 1 - n / (width as int)) * (
            width as int) + n % (width as int)],
{
    let total = bitmap.len();
    let mut flipped: Vec<u8> = Vec::new();
    let mut row: usize = 0;
    while row < height
        invariant
            bitmap@.len() == width * height,
            total == bitmap@.len(),
            row <= height,
            flipped@.len() == row * width,
            forall|n: int|
                0 <= n < flipped@.len() ==> #[trigger] flipped@[n] == bitmap@[(height as int - 1 - n / (
                    width as int)) * (width as int) + n % (width as int)],
        decreases height - row,
    {
        let src_row = height - 1 - row;
        let mut col: usize = 0;
        while col < width
            invariant
                bitmap@.len() == width * height,
                total == bitmap@.len(),
                row < height,
                src_row == height - 1 - row,
                col <= width,
                flipped@.len() == row * width + col,
                forall|n: int|
                    0 <= n < flipped@.len() ==> #[trigger] flipped@[n] == bitmap@[(height as int - 1 - n / (
                        width as int)) * (width as int) + n % (width as int)],
            decreases width - col,
        {
            proof {
                lemma_cell(width as int, height as int, col as int, src_row as int);
                lemma_cell(width as int, height as int, col as int, row as int);
            }
            let b = bitmap[src_row * width + col];
            flipped.push(b);
            col += 1;
        }
        proof {
            assert((row as int + 1) * width == row as int * width + width) by (nonlinear_arith);
        }
        row += 1;
    }
    proof {
        assert(height as int * width == width as int * height) by (nonlinear_arith);
    }
    flipped
}

/// Linear position of an in-range cell of a `w`-wide, `h`-tall, row-major
/// grid.
proof fn lemma_cell(w: int, h: int, col: int, row: int)
    requires
        0 <= col < w,
        0 <= row < h,
    ensures
        0 <= row * w + col < w * h,
        (row * w + col) / w == row,
        (row * w + col) % w == col,
{
    lemma_mul_inequality(row, h - 1, w);
    lemma_mul_is_distributive_sub_other_way(w, h, 1);
    lemma_mul_is_commutative(w, h);
    lemma_mul_nonnegative(row, w);
    lemma_fundamental_div_mod_converse(row * w + col, w, row, col);
}

/// A nonempty row-major grid has positive width; the row and column of a
/// linear position follow.
proof fn lemma_pos_width(w: int, h: int, n: int)
    requires
        0 <= n < w * h,
        0 <= w,
    ensures
        0 < w,
        0 <= n % w < w,
        0 <= n / w < h,
        n == (n / w) * w + (n % w),
{
    if w == 0 {
        assert(w * h == 0) by (nonlinear_arith)
            requires
                w == 0,
        ;
    }
    lemma_cell_of_pos(w, h, n);
}

/// Row and column of a linear position of a `w`-wide, `h`-tall grid.
proof fn lemma_cell_of_pos(w: int, h: int, n: int)
    requires
        0 <= n < w * h,
        0 < w,
    ensures
        0 <= n % w < w,
        0 <= n / w < h,
        n == (n / w) * w + (n % w),
{
    lemma_fundamental_div_mod(n, w);
    lemma_mod_division_less_than_divisor(n, w);
    lemma_div_pos_is_pos(n, w);
    lemma_multiply_divide_lt(n, w, h);
    assert(w * (n / w) == (n / w) * w) by (nonlinear_arith);
}

/// Intensity that the glyph contributes to its local cell `(gx, gy)` when
/// composited: the bitmap is read bottom-up unless the glyph is exempt from
/// the vertical flip.
pub open spec fn source_level(g: GlyphModel, gx: int, gy: int) -> u8 {
    if flip_exempt_spec(g.ch) {
        g.data[gy * g.width + gx]
    } else {
        g.data[(g.height - 1 - gy) * g.width + gx]
    }
}

/// The canvas pixel grid after compositing one glyph with its top-left
/// corner at `(x, y)`: every canvas pixel under the glyph's box takes the
/// glyph's thresholded intensity; every other pixel keeps its value.  Parts
/// of the box off the canvas are clipped.
pub open spec fn letter_grid(grid: Seq<bool>, w: int, g: GlyphModel, x: int, y: int) -> Seq<
    bool,
> {
    Seq::new(
        grid.len(),
        |n: int|
            {
                let cx = n % w;
                let cy = n / w;
                if x <= cx < x + g.width && y <= cy < y + g.height {
                    pixel_on(source_level(g, cx - x, cy - y))
                } else {
                    grid[n]
                }
            },
    )
}

/// Copy of a byte vector.
fn copy_bytes(src: &Vec<u8>) -> (r: Vec<u8>)
    ensures
        r@ == src@,
{
    let mut out: Vec<u8> = Vec::new();
    let mut i: usize = 0;
    while i < src.len()
        invariant
            i <= src@.len(),
            out@ == src@.take(i as int),
        decreases src@.len() - i,
    {
        let b = src[i];
        out.push(b);
        proof {
            assert(out@ =~= src@.take(i + 1));
        }
        i += 1;
    }
    proof {
        assert(src@.take(src@.len() as int) =~= src@);
    }
    out
}

impl<T: HidAdapter> Screen<T> {
    /// Composites one glyph onto the canvas with its top-left corner at
    /// `(x, y)`, flipping the bitmap vertically unless the rendering policy
    /// exempts the glyph's character; pixels that land off the canvas are
    /// silently clipped.
    pub fn draw_letter(&mut self, glyph: &Glyph, x: isize, y: isize)
        requires
            old(self)@.wf(),
            glyph@.wf(),
            x + glyph@.width <= isize::MAX,
            y + glyph@.height <= isize::MAX,
        ensures
            final(self)@.wf(),
            final(self)@.width == old(self)@.width,
            final(self)@.height == old(self)@.height,
            final(self)@.prev_packets == old(self)@.prev_packets,
            final(self)@.data.len() == old(self)@.data.len(),
            final(self)@.grid() == letter_grid(
                old(self)@.grid(),
                old(self)@.width,
                glyph@,
                x as int,
                y as int,
            ),
    {
        let ghost pre = old(self)@;
        let ghost w = pre.width;
        let ghost target = letter_grid(pre.grid(), w, glyph@, x as int, y as int);
        let source: Vec<u8> = if flip_exempt(glyph.ch) {
            copy_bytes(&glyph.data)
        } else {
            flip_vertical(&glyph.data, glyph.width, glyph.height)
        };
        proof {
            assert forall|n: int| 0 <= n < source@.len() implies #[trigger] source@[n]
                == source_level(glyph@, n % glyph@.width, n / glyph@.width) by {
                assert(0 < glyph@.width) by {
                    if glyph@.width == 0 {
                        assert(glyph@.width * glyph@.height == 0) by (nonlinear_arith)
                            requires
                                glyph@.width == 0,
                        ;
                    }
                }
                lemma_cell_of_pos(glyph@.width, glyph@.height, n);
                lemma_cell(glyph@.width, glyph@.height, n % glyph@.width, glyph@.height - 1 - n
                    / glyph@.width);
            }
        }
        let mut gy: usize = 0;
        while gy < glyph.height
            invariant
                self@.wf(),
                self@.width == pre.width,
                self@.height == pre.height,
                self@.prev_packets == pre.prev_packets,
                self@.data.len() == pre.data.len(),
                w == pre.width,
                glyph@.wf(),
                x + glyph@.width <= isize::MAX,
                y + glyph@.height <= isize::MAX,
                gy <= glyph@.height,
                source@.len() == glyph@.data.len(),
                forall|n: int|
                    0 <= n < source@.len() ==> #[trigger] source@[n] == source_level(
                        glyph@,
                        n % glyph@.width,
                        n / glyph@.width,
                    ),
                target == letter_grid(pre.grid(), w, glyph@, x as int, y as int),
                self@.grid().len() == pre.grid().len(),
                forall|n: int|
                    0 <= n < pre.grid().len() ==> self@.grid()[n] == if n / w < y + gy {
                        target[n]
                    } else {
                        pre.grid()[n]
                    },
            decreases glyph@.height - gy,
        {
            let mut gx: usize = 0;
            while gx < glyph.width
                invariant
                    self@.wf(),
                    self@.width == pre.width,
                    self@.height == pre.height,
                    self@.prev_packets == pre.prev_packets,
                    self@.data.len() == pre.data.len(),
                    w == pre.width,
                    glyph@.wf(),
                    x + glyph@.width <= isize::MAX,
                    y + glyph@.height <= isize::MAX,
                    gy < glyph@.height,
                    gx <= glyph@.width,
                    source@.len() == glyph@.data.len(),
                    forall|n: int|
                        0 <= n < source@.len() ==> #[trigger] source@[n] == source_level(
                            glyph@,
                            n % glyph@.width,
                            n / glyph@.width,
                        ),
                    target == letter_grid(pre.grid(), w, glyph@, x as int, y as int),
                    self@.grid().len() == pre.grid().len(),
                    forall|n: int|
                        0 <= n < pre.grid().len() ==> self@.grid()[n] == if n / w < y + gy || (n
                            / w == y + gy && n % w < x + gx) {
                            target[n]
                        } else {
                            pre.grid()[n]
                        },
                decreases glyph@.width - gx,
            {
                proof {
                    lemma_cell(glyph@.width, glyph@.height, gx as int, gy as int);
                }
                let level = source[gy * glyph.width + gx];
                let ghost mid = self@;
                let px: isize = x + gx as isize;
                let py: isize = y + gy as isize;
                self.set_pixel(px, py, intensity_on(level));
                proof {
                    let len = pre.grid().len() as int;
                    assert(len == w * pre.height);
                    assert forall|n: int|
                        0 <= n < len implies self@.grid()[n] == if n / w < y + gy || (n / w == y
                        + gy && n % w < x + gx + 1) {
                        target[n]
                    } else {
                        pre.grid()[n]
                    } by {
                        lemma_pos_width(w, pre.height, n);
                        if mid.in_range(px as int, py as int) {
                            let n0 = py as int * w + px as int;
                            lemma_cell(w, pre.height, px as int, py as int);
                            if n == n0 {
                                assert(target[n] == pixel_on(source_level(glyph@, gx as int, gy as int)));
                            }
                        } else {
                            assert(!(n / w == py as int && n % w == px as int));
                        }
                    }
                }
                gx += 1;
            }
            proof {
                assert forall|n: int|
                    0 <= n < pre.grid().len() implies self@.grid()[n] == if n / w < y + gy + 1 {
                    target[n]
                } else {
                    pre.grid()[n]
                } by {
                    lemma_pos_width(w, pre.height, n);
                    if n / w == y + gy && !(n % w < x + glyph@.width) {
                        assert(target[n] == pre.grid()[n]);
                    }
                    if n / w == y + gy && n % w < x {
                        assert(target[n] == pre.grid()[n]);
                    }
                }
            }
            gy += 1;
        }
        proof {
            assert forall|n: int| 0 <= n < pre.grid().len() implies self@.grid()[n]
                == target[n] by {
                lemma_pos_width(w, pre.height, n);
                if !(n / w < y + glyph@.height) {
                    assert(target[n] == pre.grid()[n]);
                }
                if n / w < y {
                    assert(target[n] == pre.grid()[n]);
                }
            }
            assert(self@.grid() =~= target);
        }
    }
}

/// The glyph contents of a glyph sequence.
pub open spec fn glyph_views(glyphs: Seq<Glyph>) -> Seq<GlyphModel> {
    glyphs.map_values(|g: Glyph| g@)
}

/// Every glyph of the sequence is well formed.
pub open spec fn glyphs_wf(glyphs: Seq<GlyphModel>) -> bool {
    forall|i: int| 0 <= i < glyphs.len() ==> (#[trigger] glyphs[i]).wf()
}

/// Total horizontal advance of a glyph sequence: each glyph's width plus
/// one inter-glyph spacing per glyph.
pub open spec fn total_advance(glyphs: Seq<GlyphModel>, spacing: int) -> int
    decreases glyphs.len(),
{
    if glyphs.len() == 0 {
        0
    } else {
        glyphs.first().width + spacing + total_advance(glyphs.drop_first(), spacing)
    }
}

/// The canvas pixel grid after laying a glyph sequence along the baseline
/// from `(x, y)`: each glyph is composited at the cursor, and the cursor
/// then advances by the glyph's width plus `spacing`.
pub open spec fn text_grid(
    grid: Seq<bool>,
    w: int,
    glyphs: Seq<GlyphModel>,
    x: int,
    y: int,
    spacing: int,
) -> Seq<bool>
    decreases glyphs.len(),
{
    if glyphs.len() == 0 {
        grid
    } else {
        text_grid(
            letter_grid(grid, w, glyphs.first(), x, y),
            w,
            glyphs.drop_first(),
            x + glyphs.first().width + spacing,
            y,
            spacing,
        )
    }
}

/// A well-formed glyph sequence with nonnegative spacing advances the
/// cursor by a nonnegative amount.
pub proof fn lemma_total_advance_nonneg(glyphs: Seq<GlyphModel>, spacing: int)
    requires
        glyphs_wf(glyphs),
        spacing >= 0,
    ensures
        total_advance(glyphs, spacing) >= 0,
    decreases glyphs.len(),
{
    if glyphs.len() > 0 {
        assert(glyphs[0].wf());
        assert forall|i: int| 0 <= i < glyphs.drop_first().len() implies (#[trigger] glyphs.drop_first()[i]).wf() by {
            assert(glyphs.drop_first()[i] == glyphs[i + 1]);
        }
        lemma_total_advance_nonneg(glyphs.drop_first(), spacing);
    }
}

/// Starting x that centers a span `total` wide on a canvas `w` wide, with
/// the division rounding toward zero as the hardware division does.
pub open spec fn centered_x(w: int, total: int) -> int {
    if total <= w {
        (w - total) / 2
    } else {
        -((total - w) / 2)
    }
}

/// Centered layout: a span no wider than the canvas starts at a
/// nonnegative x and leaves margins that differ by at most one pixel; a
/// wider span starts at a non-positive x — strictly negative once the span
/// exceeds the canvas by at least two pixels — and is clipped.
pub proof fn lemma_centered_margins(w: int, total: int)
    requires
        0 <= total,
        0 <= w,
    ensures
        total <= w ==> 0 <= centered_x(w, total),
        total <= w ==> {
            let left = centered_x(w, total);
            let right = w - total - left;
            right - left == 0 || right - left == 1
        },
        w < total ==> centered_x(w, total) <= 0,
        w + 2 <= total ==> centered_x(w, total) < 0,
{
    if total <= w {
        lemma_fundamental_div_mod(w - total, 2);
        lemma_mod_division_less_than_divisor(w - total, 2);
        lemma_div_pos_is_pos(w - total, 2);
    } else {
        lemma_div_pos_is_pos(total - w, 2);
        if w + 2 <= total {
            lemma_div_is_ordered(2, total - w, 2);
        }
    }
}

impl<T: HidAdapter> Screen<T> {
    /// Lays the glyph sequence out left to right from `(x, y)`, compositing
    /// each glyph at the cursor and then advancing the cursor by the
    /// glyph's width plus `spacing`; glyph parts that land off the canvas
    /// clip silently.
    pub fn draw_text(&mut self, glyphs: &Vec<Glyph>, x: isize, y: isize, spacing: isize)
        requires
            old(self)@.wf(),
            glyphs_wf(glyph_views(glyphs@)),
            spacing >= 0,
            x + total_advance(glyph_views(glyphs@), spacing as int) <= isize::MAX,
            forall|i: int|
                0 <= i < glyphs@.len() ==> y + (#[trigger] glyph_views(glyphs@)[i]).height
                    <= isize::MAX,
        ensures
            final(self)@.wf(),
            final(self)@.width == old(self)@.width,
            final(self)@.height == old(self)@.height,
            final(self)@.prev_packets == old(self)@.prev_packets,
            final(self)@.data.len() == old(self)@.data.len(),
            final(self)@.grid() == text_grid(
                old(self)@.grid(),
                old(self)@.width,
                glyph_views(glyphs@),
                x as int,
                y as int,
                spacing as int,
            ),
    {
        let ghost pre = old(self)@;
        let ghost views = glyph_views(glyphs@);
        proof {
            assert(views.skip(0) =~= views);
        }
        let mut x_cursor: isize = x;
        let mut i: usize = 0;
        while i < glyphs.len()
            invariant
                self@.wf(),
                self@.width == pre.width,
                self@.height == pre.height,
                self@.prev_packets == pre.prev_packets,
                self@.data.len() == pre.data.len(),
                views == glyph_views(glyphs@),
                glyphs_wf(views),
                spacing >= 0,
                i <= glyphs@.len(),
                x <= x_cursor,
                x_cursor + total_advance(views.skip(i as int), spacing as int) == x
                    + total_advance(views, spacing as int),
                x + total_advance(views, spacing as int) <= isize::MAX,
                forall|j: int|
                    0 <= j < glyphs@.len() ==> y + (#[trigger] views[j]).height <= isize::MAX,
                text_grid(pre.grid(), pre.width, views, x as int, y as int, spacing as int)
                    == text_grid(
                    self@.grid(),
                    pre.width,
                    views.skip(i as int),
                    x_cursor as int,
                    y as int,
                    spacing as int,
                ),
            decreases glyphs@.len() - i,
        {
            proof {
                assert(views.skip(i as int).first() == views[i as int]);
                assert(views.skip(i as int).drop_first() =~= views.skip(i as int + 1));
                assert(views[i as int].wf());
                assert forall|j: int|
                    0 <= j < views.skip(i as int + 1).len() implies (#[trigger] views.skip(
                    i as int + 1,
                )[j]).wf() by {
                    assert(views.skip(i as int + 1)[j] == views[i + 1 + j]);
                }
                lemma_total_advance_nonneg(views.skip(i as int + 1), spacing as int);
            }
            let g = &glyphs[i];
            let ghost mid = self@;
            self.draw_letter(g, x_cursor, y);
            proof {
                assert(self@.grid() == letter_grid(
                    mid.grid(),
                    pre.width,
                    views[i as int],
                    x_cursor as int,
                    y as int,
                ));
            }
            x_cursor = x_cursor + g.width as isize;
            x_cursor = x_cursor + spacing;
            i += 1;
        }
        proof {
            assert(views.skip(views.len() as int) =~= Seq::<GlyphModel>::empty());
        }
    }

    /// Computes the glyph run's total advance at an inter-glyph spacing of
    /// `font_size / 24`, then draws the run starting at the x that centers
    /// that span on the canvas, at height `y`.  A span wider than the
    /// canvas starts at a non-positive x and clips silently; that overflow
    /// is intended, not an error.
    pub fn render_centered(&mut self, glyphs: &Vec<Glyph>, font_size: usize, y: usize)
        requires
            old(self)@.wf(),
            glyphs_wf(glyph_views(glyphs@)),
            old(self)@.width <= isize::MAX,
            font_size <= isize::MAX,
            y <= isize::MAX,
            total_advance(glyph_views(glyphs@), (font_size / 24) as int) <= isize::MAX,
            forall|i: int|
                0 <= i < glyphs@.len() ==> y + (#[trigger] glyph_views(glyphs@)[i]).height
                    <= isize::MAX,
        ensures
            final(self)@.wf(),
            final(self)@.width == old(self)@.width,
            final(self)@.height == old(self)@.height,
            final(self)@.prev_packets == old(self)@.prev_packets,
            final(self)@.data.len() == old(self)@.data.len(),
            final(self)@.grid() == text_grid(
                old(self)@.grid(),
                old(self)@.width,
                glyph_views(glyphs@),
                centered_x(
                    old(self)@.width,
                    total_advance(glyph_views(glyphs@), (font_size / 24) as int),
                ),
                y as int,
                (font_size / 24) as int,
            ),
    {
        let ghost views = glyph_views(glyphs@);
        let spacing: usize = font_size / 24;
        let ghost sp = spacing as int;
        proof {
            assert(views.skip(0) =~= views);
        }
        let mut total: usize = 0;
        let mut i: usize = 0;
        while i < glyphs.len()
            invariant
                views == glyph_views(glyphs@),
                glyphs_wf(views),
                i <= glyphs@.len(),
                sp == spacing as int,
                total as int + total_advance(views.skip(i as int), sp) == total_advance(
                    views,
                    sp,
                ),
                total_advance(views, sp) <= isize::MAX,
            decreases glyphs@.len() - i,
        {
            proof {
                assert(views.skip(i as int).first() == views[i as int]);
                assert(views.skip(i as int).drop_first() =~= views.skip(i as int + 1));
                assert(views[i as int].wf());
                assert forall|j: int|
                    0 <= j < views.skip(i as int + 1).len() implies (#[trigger] views.skip(
                    i as int + 1,
                )[j]).wf() by {
                    assert(views.skip(i as int + 1)[j] == views[i + 1 + j]);
                }
                lemma_total_advance_nonneg(views.skip(i as int + 1), sp);
            }
            total = total + glyphs[i].width + spacing;
            i += 1;
        }
        proof {
            assert(views.skip(views.len() as int) =~= Seq::<GlyphModel>::empty());
            lemma_total_advance_nonneg(views, sp);
        }
        let w = self.width();
        let total_i: isize = total as isize;
        let x: isize = if total_i <= w as isize {
            (w as isize - total_i) / 2
        } else {
            -((total_i - w as isize) / 2)
        };
        proof {
            assert(x as int == centered_x(w as int, total as int));
            if total as int <= w as int {
                lemma_div_pos_is_pos(w as int - total as int, 2);
                lemma_div_nonincreasing(w as int - total as int, 2);
            } else {
                lemma_div_pos_is_pos(total as int - w as int, 2);
            }
        }
        self.draw_text(glyphs, x, y as isize, spacing as isize);
    }
}

} // verus!
