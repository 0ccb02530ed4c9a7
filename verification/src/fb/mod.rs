//! Surfaces of pixels: what can be drawn on, and the framebuffer.

pub mod font;
pub mod terminal;

use vstd::prelude::*;

verus! {

/// A surface on which single pixels can be set.
pub trait DrawTarget {
    /// Whether the surface has a pixel at (`x`, `y`).
    spec fn holds(&self, x: int, y: int) -> bool;

    /// The colour of the pixel at (`x`, `y`).
    spec fn pixel(&self, x: int, y: int) -> u32;

    /// Whether `other` is this surface but for the colours of its pixels.
    spec fn same_surface(&self, other: &Self) -> bool;

    /// A surface is the same surface as itself, and being the same
    /// surface carries over.
    proof fn lemma_same_surface(a: &Self, b: &Self, c: &Self)
        ensures
            a.same_surface(a),
            a.same_surface(b) && b.same_surface(c) ==> a.same_surface(c),
    ;

    /// Sets the pixel at (`x`, `y`) to `color`. Where the surface has no
    /// such pixel nothing is drawn.
    fn draw_pixel(&mut self, x: usize, y: usize, color: u32)
        ensures
            old(self).same_surface(final(self)),
            forall|a: int, b: int| #[trigger] final(self).holds(a, b) == old(self).holds(a, b),
            forall|a: int, b: int|
                old(self).holds(a, b) ==> #[trigger] final(self).pixel(a, b) == if a == x && b
                    == y {
                    color
                } else {
                    old(self).pixel(a, b)
                },
    ;
}

/// A framebuffer: rows of 32-bit pixels, `stride` pixels from one row to
/// the next, of which the first `width` are shown.
pub struct Framebuffer {
    pub pixels: Vec<u32>,
    pub width: usize,
    pub height: usize,
    pub stride: usize,
}

/// Row `y` of a surface begins before row `y + 1` ends, and two
/// different places of a surface have different indices.
pub proof fn lemma_places(width: int, height: int, stride: int, x: int, y: int, a: int, b: int)
    requires
        0 <= width <= stride,
        0 <= x < width,
        0 <= y < height,
        0 <= a < width,
        0 <= b < height,
    ensures
        0 <= y * stride + x < height * stride,
        (a != x || b != y) ==> b * stride + a != y * stride + x,
{
    assert(0 <= y * stride && y * stride + stride <= height * stride) by (nonlinear_arith)
        requires
            0 <= y < height,
            0 <= stride,
    ;
    if b < y {
        assert(b * stride + stride <= y * stride) by (nonlinear_arith)
            requires
                b < y,
                0 <= stride,
        ;
    } else if b > y {
        assert(y * stride + stride <= b * stride) by (nonlinear_arith)
            requires
                y < b,
                0 <= stride,
        ;
    }
}

/// The product of two sizes.
pub fn product(a: usize, b: usize) -> (r: u128)
    ensures
        r == a * b,
        r <= 0xFFFF_FFFF_FFFF_FFFF * 0xFFFF_FFFF_FFFF_FFFF,
{
    assert((a as int) * (b as int) <= 0xFFFF_FFFF_FFFF_FFFF * 0xFFFF_FFFF_FFFF_FFFF)
        by (nonlinear_arith)
        requires
            0 <= a <= 0xFFFF_FFFF_FFFF_FFFF,
            0 <= b <= 0xFFFF_FFFF_FFFF_FFFF,
    ;
    (a as u128) * (b as u128)
}

/// `pixels` moved up by `count` places: the first `count` are gone, and
/// as many zero pixels follow at the end. With `count` at or above the
/// number of pixels all are zero.
pub open spec fn scrolled(pixels: Seq<u32>, count: int) -> Seq<u32> {
    Seq::new(
        pixels.len(),
        |i: int|
            if i + count < pixels.len() {
                pixels[i + count]
            } else {
                0u32
            },
    )
}

impl Framebuffer {
    /// The rows are no shorter than what is shown of them, and there are
    /// `height` of them.
    pub open spec fn wf(&self) -> bool {
        &&& self.width <= self.stride
        &&& self.pixels@.len() == self.height * self.stride
    }

    /// A framebuffer over `pixels`, when they are `height` rows of `stride`
    /// pixels and a row is no shorter than `width`.
    pub fn new(pixels: Vec<u32>, width: usize, height: usize, stride: usize) -> (r: Option<Self>)
        ensures
            r is Some <==> width <= stride && pixels@.len() == height * stride,
            r matches Some(fb) ==> fb.wf() && fb.pixels == pixels && fb.width == width && fb.height
                == height && fb.stride == stride,
    {
        if width > stride || (pixels.len() as u128) != product(height, stride) {
            return None;
        }
        Some(Self { pixels, width, height, stride })
    }

    /// Sets every pixel to `color`.
    pub fn clear(&mut self, color: u32)
        ensures
            final(self).width == old(self).width,
            final(self).height == old(self).height,
            final(self).stride == old(self).stride,
            final(self).pixels@ == Seq::new(old(self).pixels@.len(), |i: int| color),
    {
        let n: usize = self.pixels.len();
        let mut i: usize = 0;
        while i < n
            invariant
                i <= n,
                n == self.pixels@.len(),
                n == old(self).pixels@.len(),
                self.width == old(self).width,
                self.height == old(self).height,
                self.stride == old(self).stride,
                forall|k: int| 0 <= k < i ==> self.pixels@[k] == color,
            decreases n - i,
        {
            self.pixels[i] = color;
            i += 1;
        }
        assert(self.pixels@ =~= Seq::new(old(self).pixels@.len(), |i: int| color));
    }

    /// Moves the pixels up by `count` places and fills the end with zero
    /// pixels.
    pub fn scroll(&mut self, count: usize)
        ensures
            final(self).width == old(self).width,
            final(self).height == old(self).height,
            final(self).stride == old(self).stride,
            final(self).pixels@ == scrolled(old(self).pixels@, count as int),
    {
        let n: usize = self.pixels.len();
        let mut i: usize = 0;
        while i < n
            invariant
                i <= n,
                n == self.pixels@.len(),
                n == old(self).pixels@.len(),
                self.width == old(self).width,
                self.height == old(self).height,
                self.stride == old(self).stride,
                forall|k: int|
                    0 <= k < i ==> self.pixels@[k] == scrolled(old(self).pixels@, count as int)[k],
                forall|k: int| i <= k < n ==> self.pixels@[k] == old(self).pixels@[k],
            decreases n - i,
        {
            let value: u32 = if count < n - i {
                self.pixels[i + count]
            } else {
                0
            };
            self.pixels[i] = value;
            i += 1;
        }
        assert(self.pixels@ =~= scrolled(old(self).pixels@, count as int));
    }
}

impl DrawTarget for Framebuffer {
    open spec fn holds(&self, x: int, y: int) -> bool {
        self.wf() && 0 <= x < self.width && 0 <= y < self.height
    }

    open spec fn pixel(&self, x: int, y: int) -> u32 {
        self.pixels@[y * self.stride + x]
    }

    open spec fn same_surface(&self, other: &Self) -> bool {
        &&& other.width == self.width
        &&& other.height == self.height
        &&& other.stride == self.stride
        &&& other.pixels@.len() == self.pixels@.len()
    }

    proof fn lemma_same_surface(a: &Self, b: &Self, c: &Self) {
    }

    fn draw_pixel(&mut self, x: usize, y: usize, color: u32) {
        if x >= self.width || y >= self.height || self.width > self.stride {
            return ;
        }
        let index: u128 = product(y, self.stride) + (x as u128);
        let n: usize = self.pixels.len();
        if index >= n as u128 {
            proof {
                if self.wf() {
                    lemma_places(
                        self.width as int,
                        self.height as int,
                        self.stride as int,
                        x as int,
                        y as int,
                        x as int,
                        y as int,
                    );
                }
            }
            return ;
        }
        self.pixels[index as usize] = color;
        proof {
            assert forall|a: int, b: int| old(self).holds(a, b) implies #[trigger] self.pixel(a, b)
                == if a == x && b == y {
                color
            } else {
                old(self).pixel(a, b)
            } by {
                lemma_places(
                    self.width as int,
                    self.height as int,
                    self.stride as int,
                    x as int,
                    y as int,
                    a,
                    b,
                );
                lemma_places(
                    self.width as int,
                    self.height as int,
                    self.stride as int,
                    a,
                    b,
                    x as int,
                    y as int,
                );
            }
        }
    }
}

} // verus!
