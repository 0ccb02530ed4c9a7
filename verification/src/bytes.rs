//! Little-endian integer encoding, stated and computed arithmetically.

use vstd::prelude::*;

verus! {

/// The 16-bit value whose little-endian encoding is `b0, b1`.
pub open spec fn le16(b0: u8, b1: u8) -> u16 {
    (b0 as int + 256 * (b1 as int)) as u16
}

/// The 32-bit value whose little-endian encoding is `b0, b1, b2, b3`.
pub open spec fn le32(b0: u8, b1: u8, b2: u8, b3: u8) -> u32 {
    (b0 as int + 256 * (b1 as int) + 65536 * (b2 as int) + 16777216 * (b3 as int)) as u32
}

/// The little-endian 16-bit value found at offset `off` of `s`.
pub open spec fn le16_at(s: Seq<u8>, off: int) -> u16 {
    le16(s[off], s[off + 1])
}

/// The little-endian 32-bit value found at offset `off` of `s`.
pub open spec fn le32_at(s: Seq<u8>, off: int) -> u32 {
    le32(s[off], s[off + 1], s[off + 2], s[off + 3])
}

/// The little-endian 64-bit value found at offset `off` of `s`.
pub open spec fn le64_at(s: Seq<u8>, off: int) -> u64 {
    (le32_at(s, off) as int + 4294967296 * (le32_at(s, off + 4) as int)) as u64
}

/// Byte number `k` (0 is the least significant) of `v`.
pub open spec fn byte_of(v: u32, k: int) -> u8 {
    if k == 0 {
        (v as int % 256) as u8
    } else if k == 1 {
        ((v as int / 256) % 256) as u8
    } else if k == 2 {
        ((v as int / 65536) % 256) as u8
    } else {
        ((v as int / 16777216) % 256) as u8
    }
}

/// `s` with the little-endian encoding of the 16-bit `v` stored at `off`.
pub open spec fn put_le16(s: Seq<u8>, off: int, v: u16) -> Seq<u8> {
    s.update(off, byte_of(v as u32, 0)).update(off + 1, byte_of(v as u32, 1))
}

/// `s` with the little-endian encoding of the 32-bit `v` stored at `off`.
pub open spec fn put_le32(s: Seq<u8>, off: int, v: u32) -> Seq<u8> {
    s.update(off, byte_of(v, 0)).update(off + 1, byte_of(v, 1)).update(
        off + 2,
        byte_of(v, 2),
    ).update(off + 3, byte_of(v, 3))
}

/// Decoding the bytes of a value gives the value back.
pub proof fn lemma_le32_of_bytes(v: u32)
    ensures
        le32(byte_of(v, 0), byte_of(v, 1), byte_of(v, 2), byte_of(v, 3)) == v,
{
    let x = v as int;
    assert(x == x % 256 + 256 * ((x / 256) % 256) + 65536 * ((x / 65536) % 256) + 16777216 * (x
        / 16777216));
    assert(x / 16777216 < 256);
}

/// Decoding the two low bytes of a 16-bit value gives the value back.
pub proof fn lemma_le16_of_bytes(v: u16)
    ensures
        le16(byte_of(v as u32, 0), byte_of(v as u32, 1)) == v,
{
}

/// The bytes of a decoded value are the bytes that were decoded.
pub proof fn lemma_bytes_of_le32(b0: u8, b1: u8, b2: u8, b3: u8)
    ensures
        byte_of(le32(b0, b1, b2, b3), 0) == b0,
        byte_of(le32(b0, b1, b2, b3), 1) == b1,
        byte_of(le32(b0, b1, b2, b3), 2) == b2,
        byte_of(le32(b0, b1, b2, b3), 3) == b3,
{
    let x0 = b0 as int;
    let x1 = b1 as int;
    let x2 = b2 as int;
    let x3 = b3 as int;
    let v = x0 + 256 * x1 + 65536 * x2 + 16777216 * x3;
    let above0 = x1 + 256 * x2 + 65536 * x3;
    let above1 = x2 + 256 * x3;
    assert(le32(b0, b1, b2, b3) as int == v);
    vstd::arithmetic::div_mod::lemma_fundamental_div_mod_converse(v, 256, above0, x0);
    vstd::arithmetic::div_mod::lemma_fundamental_div_mod_converse(above0, 256, above1, x1);
    vstd::arithmetic::div_mod::lemma_fundamental_div_mod_converse(v, 65536, above1, x0 + 256 * x1);
    vstd::arithmetic::div_mod::lemma_fundamental_div_mod_converse(above1, 256, x3, x2);
    vstd::arithmetic::div_mod::lemma_fundamental_div_mod_converse(
        v,
        16777216,
        x3,
        x0 + 256 * x1 + 65536 * x2,
    );
    vstd::arithmetic::div_mod::lemma_fundamental_div_mod_converse(x3, 256, 0, x3);
}

/// The bytes of a decoded 16-bit value are the bytes that were decoded.
pub proof fn lemma_bytes_of_le16(b0: u8, b1: u8)
    ensures
        byte_of(le16(b0, b1) as u32, 0) == b0,
        byte_of(le16(b0, b1) as u32, 1) == b1,
{
}

/// Decodes two bytes as a little-endian 16-bit value.
pub fn u16_from_le(b0: u8, b1: u8) -> (r: u16)
    ensures
        r == le16(b0, b1),
{
    b0 as u16 + 256 * (b1 as u16)
}

/// Decodes four bytes as a little-endian 32-bit value.
pub fn u32_from_le(b0: u8, b1: u8, b2: u8, b3: u8) -> (r: u32)
    ensures
        r == le32(b0, b1, b2, b3),
{
    b0 as u32 + 256 * (b1 as u32) + 65536 * (b2 as u32) + 16777216 * (b3 as u32)
}

/// Reads the little-endian 16-bit value at `off`.
pub fn read_le16(s: &[u8], off: usize) -> (r: u16)
    requires
        off + 2 <= s@.len(),
    ensures
        r == le16_at(s@, off as int),
{
    u16_from_le(s[off], s[off + 1])
}

/// Reads the little-endian 32-bit value at `off`.
pub fn read_le32(s: &[u8], off: usize) -> (r: u32)
    requires
        off + 4 <= s@.len(),
    ensures
        r == le32_at(s@, off as int),
{
    u32_from_le(s[off], s[off + 1], s[off + 2], s[off + 3])
}

/// Reads the little-endian 64-bit value at `off`.
pub fn read_le64(s: &[u8], off: usize) -> (r: u64)
    requires
        off + 8 <= s@.len(),
    ensures
        r == le64_at(s@, off as int),
{
    let n: usize = s.len();
    let lo: u32 = read_le32(s, off);
    let hi: u32 = read_le32(s, off + 4);
    lo as u64 + 4294967296 * (hi as u64)
}

/// Extracts byte number `k` of `v`.
pub fn u32_byte(v: u32, k: usize) -> (r: u8)
    requires
        k < 4,
    ensures
        r == byte_of(v, k as int),
{
    if k == 0 {
        (v % 256) as u8
    } else if k == 1 {
        ((v / 256) % 256) as u8
    } else if k == 2 {
        ((v / 65536) % 256) as u8
    } else {
        ((v / 16777216) % 256) as u8
    }
}

/// Stores the little-endian encoding of `v` at `off`.
pub fn write_le16(s: &mut Vec<u8>, off: usize, v: u16)
    requires
        off + 2 <= old(s)@.len(),
    ensures
        final(s)@ == put_le16(old(s)@, off as int, v),
{
    let n: usize = s.len();
    s[off] = u32_byte(v as u32, 0);
    s[off + 1] = u32_byte(v as u32, 1);
}

/// Stores the little-endian encoding of `v` at `off`.
pub fn write_le32(s: &mut Vec<u8>, off: usize, v: u32)
    requires
        off + 4 <= old(s)@.len(),
    ensures
        final(s)@ == put_le32(old(s)@, off as int, v),
{
    let n: usize = s.len();
    s[off] = u32_byte(v, 0);
    s[off + 1] = u32_byte(v, 1);
    s[off + 2] = u32_byte(v, 2);
    s[off + 3] = u32_byte(v, 3);
}

/// `s` with the little-endian encoding of the 64-bit `v` stored at `off`.
pub open spec fn put_le64(s: Seq<u8>, off: int, v: u64) -> Seq<u8> {
    put_le32(
        put_le32(s, off, (v as int % 4294967296) as u32),
        off + 4,
        (v as int / 4294967296) as u32,
    )
}

/// Stores the little-endian encoding of `v` at `off`.
pub fn write_le64(s: &mut Vec<u8>, off: usize, v: u64)
    requires
        off + 8 <= old(s)@.len(),
    ensures
        final(s)@ == put_le64(old(s)@, off as int, v),
        final(s)@.len() == old(s)@.len(),
{
    let n: usize = s.len();
    write_le32(s, off, (v % 4294967296) as u32);
    write_le32(s, off + 4, (v / 4294967296) as u32);
}

/// A 64-bit value stored in a sequence is read back from it.
pub proof fn lemma_put_le64_read(s: Seq<u8>, off: int, v: u64)
    requires
        0 <= off,
        off + 8 <= s.len(),
    ensures
        put_le64(s, off, v).len() == s.len(),
        le64_at(put_le64(s, off, v), off) == v,
        forall|k: int| 0 <= k < s.len() && !(off <= k < off + 8) ==> put_le64(s, off, v)[k] == s[k],
{
    lemma_le32_of_bytes((v as int % 4294967296) as u32);
    lemma_le32_of_bytes((v as int / 4294967296) as u32);
}

/// An array made by repeating one value holds that value at every index.
pub proof fn lemma_repeated<T: Copy, const N: usize>(a: [T; N], v: T)
    requires
        a == vstd::array::spec_array_fill_for_copy_type::<T, N>(v),
    ensures
        a@.len() == N,
        forall|k: int| 0 <= k < N ==> a@[k] == v,
{
}

} // verus!
