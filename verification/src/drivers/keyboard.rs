//! The keyboard: scancodes of set 2 become characters, which wait in a
//! ring buffer until they are read.

use vstd::prelude::*;

verus! {

/// Number of bytes of the ring buffer, one of which always stays unused.
pub const BUFFER_SIZE: usize = 256;

/// Scancode that announces the release of the key that follows.
pub const SCANCODE_RELEASE: u8 = 0xF0;

pub const SCANCODE_LEFT_SHIFT: u8 = 0x12;

pub const SCANCODE_RIGHT_SHIFT: u8 = 0x59;

pub const SCANCODE_CAPS_LOCK: u8 = 0x58;

/// The keyboard: the ring buffer with its two positions, and the state
/// of the modifier keys.
pub struct Keyboard {
    pub buffer: [u8; 256],
    pub read_pos: usize,
    pub write_pos: usize,
    pub shift_pressed: bool,
    pub caps_lock: bool,
    pub release_next: bool,
}

/// The characters of a key without and with shift, for the keys that
/// give a character.
pub open spec fn key_pair(scancode: u8) -> Option<(u8, u8)> {
    if scancode == 0x16 {
        Some((49u8, 33u8))
    } else if scancode == 0x1E {
        Some((50u8, 64u8))
    } else if scancode == 0x26 {
        Some((51u8, 35u8))
    } else if scancode == 0x25 {
        Some((52u8, 36u8))
    } else if scancode == 0x2E {
        Some((53u8, 37u8))
    } else if scancode == 0x36 {
        Some((54u8, 94u8))
    } else if scancode == 0x3D {
        Some((55u8, 38u8))
    } else if scancode == 0x3E {
        Some((56u8, 42u8))
    } else if scancode == 0x46 {
        Some((57u8, 40u8))
    } else if scancode == 0x45 {
        Some((48u8, 41u8))
    } else if scancode == 0x4E {
        Some((45u8, 95u8))
    } else if scancode == 0x55 {
        Some((61u8, 43u8))
    } else if scancode == 0x66 {
        Some((8u8, 8u8))
    } else if scancode == 0x0D {
        Some((9u8, 9u8))
    } else if scancode == 0x15 {
        Some((113u8, 81u8))
    } else if scancode == 0x1D {
        Some((119u8, 87u8))
    } else if scancode == 0x24 {
        Some((101u8, 69u8))
    } else if scancode == 0x2D {
        Some((114u8, 82u8))
    } else if scancode == 0x2C {
        Some((116u8, 84u8))
    } else if scancode == 0x35 {
        Some((121u8, 89u8))
    } else if scancode == 0x3C {
        Some((117u8, 85u8))
    } else if scancode == 0x43 {
        Some((105u8, 73u8))
    } else if scancode == 0x44 {
        Some((111u8, 79u8))
    } else if scancode == 0x4D {
        Some((112u8, 80u8))
    } else if scancode == 0x54 {
        Some((91u8, 123u8))
    } else if scancode == 0x5B {
        Some((93u8, 125u8))
    } else if scancode == 0x5A {
        Some((10u8, 10u8))
    } else if scancode == 0x1C {
        Some((97u8, 65u8))
    } else if scancode == 0x1B {
        Some((115u8, 83u8))
    } else if scancode == 0x23 {
        Some((100u8, 68u8))
    } else if scancode == 0x2B {
        Some((102u8, 70u8))
    } else if scancode == 0x34 {
        Some((103u8, 71u8))
    } else if scancode == 0x33 {
        Some((104u8, 72u8))
    } else if scancode == 0x3B {
        Some((106u8, 74u8))
    } else if scancode == 0x42 {
        Some((107u8, 75u8))
    } else if scancode == 0x4B {
        Some((108u8, 76u8))
    } else if scancode == 0x4C {
        Some((59u8, 58u8))
    } else if scancode == 0x52 {
        Some((39u8, 34u8))
    } else if scancode == 0x0E {
        Some((96u8, 126u8))
    } else if scancode == 0x5D {
        Some((92u8, 124u8))
    } else if scancode == 0x1A {
        Some((122u8, 90u8))
    } else if scancode == 0x22 {
        Some((120u8, 88u8))
    } else if scancode == 0x21 {
        Some((99u8, 67u8))
    } else if scancode == 0x2A {
        Some((118u8, 86u8))
    } else if scancode == 0x32 {
        Some((98u8, 66u8))
    } else if scancode == 0x31 {
        Some((110u8, 78u8))
    } else if scancode == 0x3A {
        Some((109u8, 77u8))
    } else if scancode == 0x41 {
        Some((44u8, 60u8))
    } else if scancode == 0x49 {
        Some((46u8, 62u8))
    } else if scancode == 0x4A {
        Some((47u8, 63u8))
    } else if scancode == 0x29 {
        Some((32u8, 32u8))
    } else {
        None
    }
}

/// The character a key gives: for a letter the shifted one when exactly
/// one of shift and caps lock is on, for any other key when shift is on.
pub open spec fn ascii_of(scancode: u8, shift: bool, caps: bool) -> Option<u8> {
    match key_pair(scancode) {
        None => None,
        Some((unshifted, shifted)) => {
            let is_letter = 97 <= unshifted && unshifted <= 122;
            let use_shifted = if is_letter {
                shift != caps
            } else {
                shift
            };
            Some(if use_shifted {
                shifted
            } else {
                unshifted
            })
        },
    }
}

/// Looks up the characters of a key without and with shift.
pub fn key_characters(scancode: u8) -> (r: Option<(u8, u8)>)
    ensures
        r == key_pair(scancode),
{
    let pair: (u8, u8) = match scancode {
        0x16 => (49, 33),
        0x1E => (50, 64),
        0x26 => (51, 35),
        0x25 => (52, 36),
        0x2E => (53, 37),
        0x36 => (54, 94),
        0x3D => (55, 38),
        0x3E => (56, 42),
        0x46 => (57, 40),
        0x45 => (48, 41),
        0x4E => (45, 95),
        0x55 => (61, 43),
        0x66 => (8, 8),
        0x0D => (9, 9),
        0x15 => (113, 81),
        0x1D => (119, 87),
        0x24 => (101, 69),
        0x2D => (114, 82),
        0x2C => (116, 84),
        0x35 => (121, 89),
        0x3C => (117, 85),
        0x43 => (105, 73),
        0x44 => (111, 79),
        0x4D => (112, 80),
        0x54 => (91, 123),
        0x5B => (93, 125),
        0x5A => (10, 10),
        0x1C => (97, 65),
        0x1B => (115, 83),
        0x23 => (100, 68),
        0x2B => (102, 70),
        0x34 => (103, 71),
        0x33 => (104, 72),
        0x3B => (106, 74),
        0x42 => (107, 75),
        0x4B => (108, 76),
        0x4C => (59, 58),
        0x52 => (39, 34),
        0x0E => (96, 126),
        0x5D => (92, 124),
        0x1A => (122, 90),
        0x22 => (120, 88),
        0x21 => (99, 67),
        0x2A => (118, 86),
        0x32 => (98, 66),
        0x31 => (110, 78),
        0x3A => (109, 77),
        0x41 => (44, 60),
        0x49 => (46, 62),
        0x4A => (47, 63),
        0x29 => (32, 32),
        _ => {
            return None;
        },
    };
    Some(pair)
}

/// The character that a key gives with the modifiers as they are.
pub fn scancode_to_ascii(scancode: u8, shift: bool, caps: bool) -> (r: Option<u8>)
    ensures
        r == ascii_of(scancode, shift, caps),
{
    match key_characters(scancode) {
        None => None,
        Some((unshifted, shifted)) => {
            let is_letter = 97 <= unshifted && unshifted <= 122;
            let use_shifted = if is_letter {
                shift != caps
            } else {
                shift
            };
            Some(if use_shifted {
                shifted
            } else {
                unshifted
            })
        },
    }
}

impl Keyboard {
    /// Both positions lie inside the buffer.
    pub open spec fn wf(&self) -> bool {
        self.read_pos < 256 && self.write_pos < 256
    }

    /// Number of characters that wait to be read.
    pub open spec fn count(&self) -> int {
        (self.write_pos as int - self.read_pos as int + 256) % 256
    }

    /// The characters that wait to be read, the oldest first.
    pub open spec fn pending(&self) -> Seq<u8> {
        Seq::new(self.count() as nat, |i: int| self.buffer@[(self.read_pos as int + i) % 256])
    }

    /// A keyboard with nothing to read and no modifier on.
    pub fn new() -> (r: Self)
        ensures
            r.wf(),
            r.pending() == Seq::<u8>::empty(),
            !r.shift_pressed,
            !r.caps_lock,
            !r.release_next,
    {
        let r = Self {
            buffer: [0u8; 256],
            read_pos: 0,
            write_pos: 0,
            shift_pressed: false,
            caps_lock: false,
            release_next: false,
        };
        assert(r.pending() =~= Seq::<u8>::empty());
        r
    }

    /// Adds a character behind those that wait. When 255 characters wait
    /// the buffer is full and the character is dropped.
    pub fn push(&mut self, c: u8)
        requires
            old(self).wf(),
        ensures
            final(self).wf(),
            final(self).shift_pressed == old(self).shift_pressed,
            final(self).caps_lock == old(self).caps_lock,
            final(self).release_next == old(self).release_next,
            final(self).pending() == if old(self).pending().len() < 255 {
                old(self).pending().push(c)
            } else {
                old(self).pending()
            },
    {
        let next_write = (self.write_pos + 1) % BUFFER_SIZE;
        if next_write != self.read_pos {
            self.buffer[self.write_pos] = c;
            self.write_pos = next_write;
            assert(self.pending() =~= old(self).pending().push(c));
        }
    }

    /// Takes the oldest character that waits, if any.
    pub fn pop(&mut self) -> (r: Option<u8>)
        requires
            old(self).wf(),
        ensures
            final(self).wf(),
            final(self).shift_pressed == old(self).shift_pressed,
            final(self).caps_lock == old(self).caps_lock,
            final(self).release_next == old(self).release_next,
            old(self).pending().len() == 0 ==> r is None && final(self).pending() == old(self).pending(),
            old(self).pending().len() > 0 ==> r == Some(old(self).pending()[0])
                && final(self).pending() == old(self).pending().drop_first(),
    {
        if self.read_pos == self.write_pos {
            None
        } else {
            let c = self.buffer[self.read_pos];
            self.read_pos = (self.read_pos + 1) % BUFFER_SIZE;
            assert(self.pending() =~= old(self).pending().drop_first());
            Some(c)
        }
    }

    /// Whether no character waits.
    pub fn is_empty(&self) -> (r: bool)
        requires
            self.wf(),
        ensures
            r == (self.pending().len() == 0),
    {
        self.read_pos == self.write_pos
    }

    /// What a scancode does to the modifiers, and the character it adds
    /// to those that wait, if any: the release prefix marks the next code
    /// as a release; a released shift key turns shift off and any other
    /// release does nothing; a pressed shift key turns shift on; caps
    /// lock flips; any other key gives its character.
    pub open spec fn after_scancode(
        shift: bool,
        caps: bool,
        release: bool,
        scancode: u8,
    ) -> (bool, bool, bool, Option<u8>) {
        let is_shift = scancode == SCANCODE_LEFT_SHIFT || scancode == SCANCODE_RIGHT_SHIFT;
        if scancode == SCANCODE_RELEASE {
            (shift, caps, true, None)
        } else if release {
            (if is_shift {
                false
            } else {
                shift
            }, caps, false, None)
        } else if is_shift {
            (true, caps, false, None)
        } else if scancode == SCANCODE_CAPS_LOCK {
            (shift, !caps, false, None)
        } else {
            (shift, caps, false, ascii_of(scancode, shift, caps))
        }
    }

    /// Takes in one scancode.
    pub fn handle(&mut self, scancode: u8)
        requires
            old(self).wf(),
        ensures
            final(self).wf(),
            ({
                let next = Self::after_scancode(
                    old(self).shift_pressed,
                    old(self).caps_lock,
                    old(self).release_next,
                    scancode,
                );
                &&& final(self).shift_pressed == next.0
                &&& final(self).caps_lock == next.1
                &&& final(self).release_next == next.2
                &&& final(self).pending() == match next.3 {
                    Some(c) => if old(self).pending().len() < 255 {
                        old(self).pending().push(c)
                    } else {
                        old(self).pending()
                    },
                    None => old(self).pending(),
                }
            }),
    {
        if scancode == SCANCODE_RELEASE {
            self.release_next = true;
            assert(self.pending() =~= old(self).pending());
            return ;
        }
        if self.release_next {
            self.release_next = false;
            if scancode == SCANCODE_LEFT_SHIFT || scancode == SCANCODE_RIGHT_SHIFT {
                self.shift_pressed = false;
            }
            assert(self.pending() =~= old(self).pending());
            return ;
        }
        if scancode == SCANCODE_LEFT_SHIFT || scancode == SCANCODE_RIGHT_SHIFT {
            self.shift_pressed = true;
            assert(self.pending() =~= old(self).pending());
        } else if scancode == SCANCODE_CAPS_LOCK {
            self.caps_lock = !self.caps_lock;
            assert(self.pending() =~= old(self).pending());
        } else {
            match scancode_to_ascii(scancode, self.shift_pressed, self.caps_lock) {
                Some(ascii) => {
                    self.push(ascii);
                },
                None => {},
            }
        }
    }
}

/// Takes in one scancode from the keyboard controller.
pub fn handle_scancode(kb: &mut Keyboard, scancode: u8)
    requires
        old(kb).wf(),
    ensures
        final(kb).wf(),
        ({
            let next = Keyboard::after_scancode(
                old(kb).shift_pressed,
                old(kb).caps_lock,
                old(kb).release_next,
                scancode,
            );
            &&& final(kb).shift_pressed == next.0
            &&& final(kb).caps_lock == next.1
            &&& final(kb).release_next == next.2
            &&& final(kb).pending() == match next.3 {
                Some(c) => if old(kb).pending().len() < 255 {
                    old(kb).pending().push(c)
                } else {
                    old(kb).pending()
                },
                None => old(kb).pending(),
            }
        }),
{
    kb.handle(scancode);
}

/// Takes the oldest character that waits, if any.
pub fn read_char(kb: &mut Keyboard) -> (r: Option<u8>)
    requires
        old(kb).wf(),
    ensures
        final(kb).wf(),
        final(kb).shift_pressed == old(kb).shift_pressed,
        final(kb).caps_lock == old(kb).caps_lock,
        final(kb).release_next == old(kb).release_next,
        old(kb).pending().len() == 0 ==> r is None && final(kb).pending() == old(kb).pending(),
        old(kb).pending().len() > 0 ==> r == Some(old(kb).pending()[0]) && final(kb).pending()
            == old(kb).pending().drop_first(),
{
    kb.pop()
}

/// Whether a character waits.
pub fn has_input(kb: &Keyboard) -> (r: bool)
    requires
        kb.wf(),
    ensures
        r == (kb.pending().len() > 0),
{
    !kb.is_empty()
}

/// The characters a read of at most `len` characters takes from those
/// that wait: up to and with the first line feed, at most `len`, and all
/// there are when they are fewer.
pub open spec fn line_of(pending: Seq<u8>, len: int) -> Seq<u8>
    decreases pending.len(),
{
    if len <= 0 || pending.len() == 0 {
        Seq::empty()
    } else if pending[0] == 10 {
        seq![10u8]
    } else {
        seq![pending[0]].add(line_of(pending.drop_first(), len - 1))
    }
}

/// Reads from the keyboard at most `len` characters, stopping after a
/// line feed and when nothing waits.
pub fn read_line(kb: &mut Keyboard, len: usize) -> (r: Vec<u8>)
    requires
        old(kb).wf(),
    ensures
        final(kb).wf(),
        final(kb).shift_pressed == old(kb).shift_pressed,
        final(kb).caps_lock == old(kb).caps_lock,
        final(kb).release_next == old(kb).release_next,
        r@ == line_of(old(kb).pending(), len as int),
        final(kb).pending() == old(kb).pending().subrange(
            r@.len() as int,
            old(kb).pending().len() as int,
        ),
{
    let mut out: Vec<u8> = Vec::new();
    let ghost all = kb.pending();
    proof {
        assert(all.subrange(0, all.len() as int) =~= all);
        assert(out@.add(line_of(all, len as int)) =~= line_of(all, len as int));
    }
    while out.len() < len
        invariant
            kb.wf(),
            kb.shift_pressed == old(kb).shift_pressed,
            kb.caps_lock == old(kb).caps_lock,
            kb.release_next == old(kb).release_next,
            all == old(kb).pending(),
            out@.len() <= len,
            out@.len() <= all.len(),
            kb.pending() == all.subrange(out@.len() as int, all.len() as int),
            out@.add(line_of(kb.pending(), len - out@.len())) == line_of(all, len as int),
        decreases len - out@.len(),
    {
        let ghost rest = kb.pending();
        match kb.pop() {
            Some(c) => {
                proof {
                    assert(rest.drop_first() =~= all.subrange(out@.len() as int + 1, all.len() as int));
                    if c == 10 {
                        assert(out@.push(c) =~= out@.add(seq![10u8]));
                    } else {
                        assert(out@.push(c).add(line_of(rest.drop_first(), len - out@.len() - 1))
                            =~= out@.add(
                            seq![c].add(line_of(rest.drop_first(), len - out@.len() - 1)),
                        ));
                    }
                }
                out.push(c);
                if c == 10 {
                    return out;
                }
            },
            None => {
                assert(out@.add(Seq::<u8>::empty()) =~= out@);
                return out;
            },
        }
    }
    proof {
        assert(out@.add(Seq::<u8>::empty()) =~= out@);
    }
    out
}

} // verus!
