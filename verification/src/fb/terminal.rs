//! A terminal on a framebuffer: a grid of character cells, a cursor, and
//! what each character does to them.

use vstd::prelude::*;
use crate::fb::font::Font;
use crate::fb::{product, scrolled, Framebuffer};

verus! {

/// A terminal that draws characters with a font on a framebuffer.
pub struct Terminal {
    pub fb: Framebuffer,
    /// Column of the cursor.
    pub x: usize,
    /// Line of the cursor.
    pub y: usize,
    /// Number of columns.
    pub max_x: usize,
    /// Number of lines.
    pub max_y: usize,
    pub fg: u32,
    pub bg: u32,
    /// Number of pixels, each way, for one pixel of a glyph.
    pub scale: usize,
    pub font: Font,
    /// Number of pixel rows between two lines.
    pub line_spacing: usize,
    /// Number of pixels from one column to the next.
    pub char_width: usize,
}

impl Terminal {
    /// The glyphs are at least one and at most eight pixels wide, and the
    /// height of a line is a number the machine has.
    pub open spec fn wf(&self) -> bool {
        &&& 1 <= self.font.glyph_width <= 8
        &&& self.font.glyph_height * self.scale + self.line_spacing <= usize::MAX
    }

    /// Number of pixel rows from one line to the next.
    pub open spec fn line_height(&self) -> int {
        self.font.glyph_height * self.scale + self.line_spacing
    }

    /// Whether `other` differs from this terminal at most in the cursor
    /// and in the pixels shown.
    pub open spec fn same_settings(&self, other: &Self) -> bool {
        &&& other.font == self.font
        &&& other.fg == self.fg
        &&& other.bg == self.bg
        &&& other.scale == self.scale
        &&& other.max_x == self.max_x
        &&& other.max_y == self.max_y
        &&& other.line_spacing == self.line_spacing
        &&& other.char_width == self.char_width
        &&& other.fb.width == self.fb.width
        &&& other.fb.height == self.fb.height
        &&& other.fb.stride == self.fb.stride
        &&& other.fb.pixels@.len() == self.fb.pixels@.len()
    }

    /// A terminal on `fb` with the glyphs of `font` at twice their size,
    /// white on black, the cursor at the top left. The columns are as
    /// many as glyphs fit side by side, and the lines as many as fit with
    /// four pixel rows between them.
    pub fn new(fb: Framebuffer, font: Font) -> (r: Self)
        requires
            1 <= font.glyph_width <= 8,
            font.glyph_height * 2 + 4 <= usize::MAX,
        ensures
            r.wf(),
            r.fb == fb,
            r.font == font,
            r.x == 0 && r.y == 0,
            r.fg == 0xffffff && r.bg == 0,
            r.scale == 2,
            r.line_spacing == 4,
            r.char_width == font.glyph_width * 2 - 2,
            r.max_x == fb.width as int / (font.glyph_width * 2),
            r.max_y == fb.height as int / (font.glyph_height * 2 + 4),
    {
        let scale: usize = 2;
        let char_width: usize = font.glyph_width * scale - 2;
        let line_spacing: usize = 4;
        let line_height: usize = font.glyph_height * scale + line_spacing;
        let max_x: usize = fb.width / (font.glyph_width * scale);
        let max_y: usize = fb.height / line_height;
        Self {
            fb,
            x: 0,
            y: 0,
            max_x,
            max_y,
            fg: 0xffffff,
            bg: 0x000000,
            scale,
            font,
            line_spacing,
            char_width,
        }
    }

    /// Sets the colour of lit pixels.
    pub fn set_fg(&mut self, color: u32)
        ensures
            *final(self) == (Terminal { fg: color, ..*old(self) }),
    {
        self.fg = color;
    }

    /// Sets the colour of the other pixels.
    pub fn set_bg(&mut self, color: u32)
        ensures
            *final(self) == (Terminal { bg: color, ..*old(self) }),
    {
        self.bg = color;
    }

    /// Whether `after` is this terminal after a line feed: the cursor is
    /// at the start of the next line; on the last line the cursor stays
    /// there and the pixels move up by one line.
    pub open spec fn fed(&self, after: &Self) -> bool {
        &&& self.same_settings(after)
        &&& after.x == 0
        &&& if self.y + 1 >= self.max_y {
            after.y == self.y && after.fb.pixels@ == scrolled(
                self.fb.pixels@,
                self.line_height() * self.fb.stride,
            )
        } else {
            after.y == self.y + 1 && after.fb == self.fb
        }
    }

    /// Moves the pixels up by one line; the last line is then empty.
    pub fn scroll(&mut self)
        requires
            old(self).wf(),
        ensures
            final(self).wf(),
            old(self).same_settings(final(self)),
            final(self).x == old(self).x,
            final(self).y == old(self).y,
            final(self).fb.pixels@ == scrolled(
                old(self).fb.pixels@,
                old(self).line_height() * old(self).fb.stride,
            ),
    {
        let line_height: usize = self.font.glyph_height * self.scale + self.line_spacing;
        let wanted: u128 = product(line_height, self.fb.stride);
        let count: usize = if wanted > usize::MAX as u128 {
            usize::MAX
        } else {
            wanted as usize
        };
        let shown: usize = self.fb.pixels.len();
        proof {
            assert(scrolled(old(self).fb.pixels@, count as int) =~= scrolled(
                old(self).fb.pixels@,
                wanted as int,
            ));
        }
        self.fb.scroll(count);
    }

    /// Moves the cursor to the start of the next line, and the pixels up
    /// by one line when the cursor is on the last line.
    pub fn newline(&mut self)
        requires
            old(self).wf(),
        ensures
            final(self).wf(),
            old(self).fed(final(self)),
    {
        self.x = 0;
        if self.y >= self.max_y || self.y + 1 >= self.max_y {
            self.scroll();
        } else {
            self.y += 1;
        }
    }

    /// Fills the framebuffer with the background colour and moves the
    /// cursor to the top left.
    pub fn clear(&mut self)
        ensures
            old(self).same_settings(final(self)),
            final(self).x == 0 && final(self).y == 0,
            final(self).fb.pixels@ == Seq::new(old(self).fb.pixels@.len(), |i: int| old(self).bg),
    {
        self.fb.clear(self.bg);
        self.x = 0;
        self.y = 0;
    }

    /// Whether `after` is this terminal with `c` drawn in the cell of
    /// column `column` on the line of the cursor, and the cursor in column
    /// `next`. A cell whose place is beyond the numbers of the machine is
    /// not drawn.
    pub open spec fn shows(&self, c: char, column: int, next: int, after: &Self) -> bool {
        let left = column * self.char_width;
        let top = self.y * self.line_height();
        &&& self.same_settings(after)
        &&& after.y == self.y
        &&& after.x == next
        &&& if left + self.font.glyph_width * self.scale <= usize::MAX && top
            + self.font.glyph_height * self.scale <= usize::MAX {
            self.font.draws(&self.fb, &after.fb, c, left, top, self.fg, self.bg, self.scale as int)
        } else {
            after.fb == self.fb
        }
    }

    /// Draws `c` in the cell of column `column` on the line of the cursor.
    fn draw_cell(&mut self, c: char, column: usize)
        requires
            old(self).wf(),
        ensures
            final(self).wf(),
            old(self).shows(c, column as int, old(self).x as int, final(self)),
    {
        let line_height: usize = self.font.glyph_height * self.scale + self.line_spacing;
        let left: u128 = product(column, self.char_width);
        let top: u128 = product(self.y, line_height);
        let wide: u128 = product(self.font.glyph_width, self.scale);
        let high: u128 = product(self.font.glyph_height, self.scale);
        if left <= usize::MAX as u128 && top <= usize::MAX as u128 && left + wide
            <= usize::MAX as u128 && top + high <= usize::MAX as u128 {
            self.font.draw_char(
                &mut self.fb,
                c,
                left as usize,
                top as usize,
                self.fg,
                self.bg,
                self.scale,
            );
        }
    }

    /// Whether `after` is this terminal after the printable character `c`:
    /// at the end of a line the line is fed first; then `c` is drawn at
    /// the cursor, and the cursor moves on by a column.
    pub open spec fn printed(&self, c: char, after: &Self) -> bool {
        if self.x >= self.max_x {
            exists|mid: Self| #[trigger]
                self.fed(&mid) && mid.wf() && mid.shows(c, 0, 1, after)
        } else {
            self.shows(c, self.x as int, self.x + 1, after)
        }
    }

    /// Draws the printable character `c` at the cursor and moves on.
    fn print(&mut self, c: char)
        requires
            old(self).wf(),
        ensures
            final(self).wf(),
            old(self).printed(c, final(self)),
    {
        if self.x >= self.max_x {
            self.newline();
        }
        let ghost mid = *self;
        let column: usize = self.x;
        self.draw_cell(c, column);
        self.x = column + 1;
        proof {
            if old(self).x >= old(self).max_x {
                assert(old(self).fed(&mid) && mid.wf() && mid.shows(c, 0, 1, self));
            }
        }
    }

    /// Whether `after` is this terminal after four spaces.
    pub open spec fn spaced(&self, after: &Self) -> bool {
        exists|a: Self, b: Self, c: Self|
            #![trigger self.printed(' ', &a), a.printed(' ', &b), b.printed(' ', &c)]
            {
                &&& a.wf() && b.wf() && c.wf()
                &&& self.printed(' ', &a)
                &&& a.printed(' ', &b)
                &&& b.printed(' ', &c)
                &&& c.printed(' ', after)
            }
    }

    /// Whether `after` is this terminal after the character `c`:
    ///
    /// - a line feed moves to the start of the next line;
    /// - a carriage return moves to the start of the line;
    /// - a tab is four spaces;
    /// - a backspace moves back by a column and draws a space there, and
    ///   does nothing at the start of a line;
    /// - a space or a character above it is drawn at the cursor;
    /// - any other character does nothing.
    pub open spec fn put(&self, c: char, after: &Self) -> bool {
        if c == '\n' {
            self.fed(after)
        } else if c == '\r' {
            *after == (Terminal { x: 0, ..*self })
        } else if c == '\t' {
            self.spaced(after)
        } else if c == '\x08' {
            if self.x > 0 {
                self.shows(' ', self.x - 1, self.x - 1, after)
            } else {
                *after == *self
            }
        } else if c >= ' ' {
            self.printed(c, after)
        } else {
            *after == *self
        }
    }

    /// Puts the character `c` on the terminal.
    pub fn put_char(&mut self, c: char)
        requires
            old(self).wf(),
        ensures
            final(self).wf(),
            old(self).put(c, final(self)),
    {
        if c == '\n' {
            self.newline();
        } else if c == '\r' {
            self.x = 0;
        } else if c == '\t' {
            self.print(' ');
            let ghost a = *self;
            self.print(' ');
            let ghost b = *self;
            self.print(' ');
            let ghost c = *self;
            self.print(' ');
            proof {
                assert(old(self).printed(' ', &a) && a.printed(' ', &b) && b.printed(' ', &c)
                    && c.printed(' ', self));
            }
        } else if c == '\x08' {
            if self.x > 0 {
                let column: usize = self.x - 1;
                self.x = column;
                let ghost moved = *self;
                self.draw_cell(' ', column);
                proof {
                    assert(moved.fb == old(self).fb);
                }
            }
        } else if c >= ' ' {
            self.print(c);
        }
    }

    /// Whether `after` is this terminal after the characters `text`, put
    /// on it one after the other.
    pub open spec fn wrote(&self, text: Seq<char>, after: &Self) -> bool
        decreases text.len(),
    {
        if text.len() == 0 {
            *after == *self
        } else {
            exists|mid: Self|
                #![trigger mid.put(text.last(), after)]
                self.wrote(text.drop_last(), &mid) && mid.wf() && mid.put(text.last(), after)
        }
    }

    /// Puts the characters of `s` on the terminal, one after the other.
    pub fn write_str(&mut self, s: &str)
        requires
            old(self).wf(),
        ensures
            final(self).wf(),
            old(self).wrote(s@, final(self)),
    {
        let chars = crate::text::chars_of(s);
        let n: usize = chars.len();
        let mut i: usize = 0;
        proof {
            assert(chars@.subrange(0, 0) =~= Seq::<char>::empty());
        }
        while i < n
            invariant
                i <= n,
                n == chars@.len(),
                chars@ == s@,
                self.wf(),
                old(self).wrote(chars@.subrange(0, i as int), self),
            decreases n - i,
        {
            let ghost mid = *self;
            self.put_char(chars[i]);
            proof {
                let done = chars@.subrange(0, i + 1);
                assert(done.drop_last() =~= chars@.subrange(0, i as int));
                assert(done.last() == chars@[i as int]);
                assert(old(self).wrote(done.drop_last(), &mid) && mid.wf() && mid.put(
                    done.last(),
                    self,
                ));
            }
            i += 1;
        }
        proof {
            assert(chars@.subrange(0, n as int) =~= chars@);
        }
    }
}

} // verus!
