//! A bitmap font: one byte for each row of a glyph, the leftmost pixel in
//! the lowest bit.

use vstd::prelude::*;
use crate::fb::{product, DrawTarget};

verus! {

/// A font of up to 128 glyphs, each `glyph_height` rows of `glyph_width`
/// pixels.
pub struct Font {
    pub data: Vec<u8>,
    pub glyph_width: usize,
    pub glyph_height: usize,
}

/// Whether pixel `col` of a row of a glyph is lit.
pub open spec fn lit(row: u8, col: u8) -> bool {
    row & (1u8 << col) != 0
}

/// The place `d` lies in cell number `d / scale` of cells that are
/// `scale` wide.
pub proof fn lemma_cell(d: int, scale: int, cell: int)
    requires
        scale > 0,
        cell * scale <= d < cell * scale + scale,
    ensures
        d / scale == cell,
{
    assert(d / scale == cell) by (nonlinear_arith)
        requires
            scale > 0,
            cell * scale <= d < cell * scale + scale,
    ;
}

impl Font {
    /// A font over the rows `data`.
    pub fn new(data: Vec<u8>, glyph_width: usize, glyph_height: usize) -> (r: Self)
        ensures
            r.data == data,
            r.glyph_width == glyph_width,
            r.glyph_height == glyph_height,
    {
        Self { data, glyph_width, glyph_height }
    }

    /// The rows of the glyph of `c`: the font has one for each of the
    /// first 128 characters whose rows its data holds.
    pub open spec fn rows_of(&self, c: char) -> Option<Seq<u8>> {
        let start = (c as int) * self.glyph_height;
        if (c as int) < 128 && start + self.glyph_height <= self.data@.len() {
            Some(self.data@.subrange(start, start + self.glyph_height))
        } else {
            None
        }
    }

    /// The rows of the glyph of `c`.
    pub fn glyph(&self, c: char) -> (r: Option<&[u8]>)
        ensures
            match self.rows_of(c) {
                Some(rows) => r is Some && r->0@ == rows,
                None => r is None,
            },
    {
        let idx: usize = c as usize;
        if idx >= 128 {
            return None;
        }
        let n: usize = self.data.len();
        let start: u128 = product(idx, self.glyph_height);
        let end: u128 = start + (self.glyph_height as u128);
        if end > n as u128 {
            return None;
        }
        let rows: &[u8] = self.data.as_slice();
        Some(&rows[start as usize..end as usize])
    }

    /// Whether (`a`, `b`) lies in the cell that a glyph drawn at (`x`,
    /// `y`) fills when every pixel of it is `scale` pixels wide and high.
    pub open spec fn in_cell(&self, x: int, y: int, scale: int, a: int, b: int) -> bool {
        x <= a < x + self.glyph_width * scale && y <= b < y + self.glyph_height * scale
    }

    /// The colour that pixel (`a`, `b`) of a cell at (`x`, `y`) gets from
    /// the rows `rows`.
    pub open spec fn colour(
        rows: Seq<u8>,
        x: int,
        y: int,
        scale: int,
        fg: u32,
        bg: u32,
        a: int,
        b: int,
    ) -> u32 {
        if lit(rows[(b - y) / scale], ((a - x) / scale) as u8) {
            fg
        } else {
            bg
        }
    }

    /// Whether `after` is `before` with the glyph of `c` drawn at (`x`,
    /// `y`): every pixel of the cell that the surface has shows the glyph,
    /// lit pixels in `fg` and the others in `bg`; nothing else differs. A
    /// character without a glyph draws nothing.
    pub open spec fn draws<T: DrawTarget>(
        &self,
        before: &T,
        after: &T,
        c: char,
        x: int,
        y: int,
        fg: u32,
        bg: u32,
        scale: int,
    ) -> bool {
        &&& before.same_surface(after)
        &&& forall|a: int, b: int| #[trigger] after.holds(a, b) == before.holds(a, b)
        &&& forall|a: int, b: int|
            before.holds(a, b) ==> #[trigger] after.pixel(a, b) == if self.rows_of(c) is Some
                && self.in_cell(x, y, scale, a, b) {
                Self::colour(self.rows_of(c)->0, x, y, scale, fg, bg, a, b)
            } else {
                before.pixel(a, b)
            }
    }

    /// Fills the square of `scale` by `scale` pixels at (`x`, `y`) with
    /// `color`.
    fn fill_block<T: DrawTarget>(target: &mut T, x: usize, y: usize, scale: usize, color: u32)
        requires
            x + scale <= usize::MAX,
            y + scale <= usize::MAX,
        ensures
            old(target).same_surface(final(target)),
            forall|a: int, b: int| #[trigger] final(target).holds(a, b) == old(target).holds(a, b),
            forall|a: int, b: int|
                old(target).holds(a, b) ==> #[trigger] final(target).pixel(a, b) == if x <= a < x
                    + scale && y <= b < y + scale {
                    color
                } else {
                    old(target).pixel(a, b)
                },
    {
        proof {
            T::lemma_same_surface(target, target, target);
        }
        let mut sy: usize = 0;
        while sy < scale
            invariant
                sy <= scale,
                x + scale <= usize::MAX,
                y + scale <= usize::MAX,
                old(target).same_surface(target),
                forall|a: int, b: int| #[trigger] target.holds(a, b) == old(target).holds(a, b),
                forall|a: int, b: int|
                    old(target).holds(a, b) ==> #[trigger] target.pixel(a, b) == if x <= a < x
                        + scale && y <= b < y + sy {
                        color
                    } else {
                        old(target).pixel(a, b)
                    },
            decreases scale - sy,
        {
            let mut sx: usize = 0;
            while sx < scale
                invariant
                    sx <= scale,
                    sy < scale,
                    x + scale <= usize::MAX,
                    y + scale <= usize::MAX,
                    old(target).same_surface(target),
                forall|a: int, b: int| #[trigger] target.holds(a, b) == old(target).holds(a, b),
                    forall|a: int, b: int|
                        old(target).holds(a, b) ==> #[trigger] target.pixel(a, b) == if (x <= a < x
                            + scale && y <= b < y + sy) || (x <= a < x + sx && b == y + sy) {
                            color
                        } else {
                            old(target).pixel(a, b)
                        },
                decreases scale - sx,
            {
                let ghost before = *target;
                target.draw_pixel(x + sx, y + sy, color);
                proof {
                    T::lemma_same_surface(old(target), &before, target);
                }
                sx += 1;
            }
            sy += 1;
        }
    }

    /// Draws the glyph of `c` at (`x`, `y`), every pixel of it `scale`
    /// pixels wide and high: lit pixels in `fg`, the others in `bg`. A
    /// character without a glyph draws nothing.
    pub fn draw_char<T: DrawTarget>(
        &self,
        target: &mut T,
        c: char,
        x: usize,
        y: usize,
        fg: u32,
        bg: u32,
        scale: usize,
    )
        requires
            self.glyph_width <= 8,
            x + self.glyph_width * scale <= usize::MAX,
            y + self.glyph_height * scale <= usize::MAX,
        ensures
            self.draws(old(target), final(target), c, x as int, y as int, fg, bg, scale as int),
    {
        proof {
            T::lemma_same_surface(target, target, target);
        }
        let glyph: &[u8] = match self.glyph(c) {
            Some(g) => g,
            None => {
                return ;
            },
        };
        let height: usize = self.glyph_height;
        let width: usize = self.glyph_width;
        let ghost rows = self.rows_of(c)->0;
        let mut row: usize = 0;
        while row < height
            invariant
                row <= height,
                height == self.glyph_height,
                width == self.glyph_width,
                width <= 8,
                glyph@ == rows,
                rows.len() == height,
                x + width * scale <= usize::MAX,
                y + height * scale <= usize::MAX,
                old(target).same_surface(target),
                forall|a: int, b: int| #[trigger] target.holds(a, b) == old(target).holds(a, b),
                forall|a: int, b: int|
                    old(target).holds(a, b) ==> #[trigger] target.pixel(a, b) == if x <= a < x
                        + width * scale && y <= b < y + row * scale {
                        Self::colour(rows, x as int, y as int, scale as int, fg, bg, a, b)
                    } else {
                        old(target).pixel(a, b)
                    },
            decreases height - row,
        {
            let byte: u8 = glyph[row];
            assert(row * scale + scale <= height * scale) by (nonlinear_arith)
                requires
                    row < height,
            ;
            let top: usize = y + row * scale;
            let mut col: usize = 0;
            while col < width
                invariant
                    col <= width,
                    row < height,
                    height == self.glyph_height,
                    width == self.glyph_width,
                    width <= 8,
                    glyph@ == rows,
                    rows.len() == height,
                    byte == rows[row as int],
                    top == y + row * scale,
                    top + scale <= usize::MAX,
                    x + width * scale <= usize::MAX,
                    y + height * scale <= usize::MAX,
                    row * scale + scale <= height * scale,
                    old(target).same_surface(target),
                forall|a: int, b: int| #[trigger] target.holds(a, b) == old(target).holds(a, b),
                    forall|a: int, b: int|
                        old(target).holds(a, b) ==> #[trigger] target.pixel(a, b) == if (x <= a < x
                            + width * scale && y <= b < top) || (x <= a < x + col * scale && top
                            <= b < top + scale) {
                            Self::colour(rows, x as int, y as int, scale as int, fg, bg, a, b)
                        } else {
                            old(target).pixel(a, b)
                        },
                decreases width - col,
            {
                assert(col * scale + scale <= width * scale) by (nonlinear_arith)
                    requires
                        col < width,
                ;
                let color: u32 = if byte & (1u8 << (col as u8)) != 0 {
                    fg
                } else {
                    bg
                };
                let left: usize = x + col * scale;
                let ghost before = *target;
                Self::fill_block(target, left, top, scale, color);
                proof {
                    T::lemma_same_surface(old(target), &before, target);
                    assert forall|a: int, b: int| old(target).holds(a, b) implies #[trigger] target.pixel(
                        a,
                        b,
                    ) == if (x <= a < x + width * scale && y <= b < top) || (x <= a < x + (col + 1)
                        * scale && top <= b < top + scale) {
                        Self::colour(rows, x as int, y as int, scale as int, fg, bg, a, b)
                    } else {
                        old(target).pixel(a, b)
                    } by {
                        assert(before.holds(a, b));
                        assert((col + 1) * scale == col * scale + scale) by (nonlinear_arith);
                        if left <= a < left + scale && top <= b < top + scale {
                            lemma_cell(a - x, scale as int, col as int);
                            lemma_cell(b - y, scale as int, row as int);
                        }
                    }
                }
                col += 1;
            }
            proof {
                assert((row + 1) * scale == row * scale + scale) by (nonlinear_arith);
            }
            row += 1;
        }
    }
}

} // verus!
