//! Bit-level reader over an immutable byte slice.
//!
//! Reads up to 16 bits at a time from a big-endian bitstream.  Bytes past
//! the end of the buffer read as zero, and every read that starts at or
//! beyond `LDAC_MAXBITNUM` yields zero.
use vstd::prelude::*;
use vstd::arithmetic::power2::{pow2, lemma2_to64};
use vstd::bits::{lemma_u32_shr_is_div, lemma_u32_low_bits_mask_is_mod, low_bits_mask, lemma_low_bits_mask_values};
use crate::consts::LDAC_MAXBITNUM;

verus! {

/// The byte at index `i`, or zero past either end of the stream.
pub open spec fn byte_or_zero(s: Seq<u8>, i: int) -> int {
    if 0 <= i < s.len() { s[i] as int } else { 0 }
}

/// The 24-bit big-endian window formed by bytes `i`, `i + 1`, `i + 2`.
pub open spec fn window24(s: Seq<u8>, i: int) -> int {
    byte_or_zero(s, i) * 0x10000 + byte_or_zero(s, i + 1) * 0x100 + byte_or_zero(s, i + 2)
}

/// The value of the `n`-bit field (MSB first) that starts at bit `pos` of the
/// stream; zero when `pos` lies at or beyond `LDAC_MAXBITNUM`.
pub open spec fn field_at(s: Seq<u8>, pos: int, n: int) -> int {
    if pos < LDAC_MAXBITNUM {
        (window24(s, pos / 8) / pow2((24 - pos % 8 - n) as nat) as int) % pow2(n as nat) as int
    } else {
        0
    }
}

/// A reader of MSB-first bit fields over a byte slice.
pub struct BitReader<'a> {
    buf: &'a [u8],
    loc: usize,
}

impl<'a> BitReader<'a> {
    /// The bytes being read.
    pub closed spec fn bytes(&self) -> Seq<u8> {
        self.buf@
    }

    /// The current bit position.
    pub closed spec fn position(&self) -> int {
        self.loc as int
    }

    /// A position is never negative.
    pub broadcast proof fn lemma_position_nonneg(&self)
        ensures
            #[trigger] self.position() >= 0,
    {
    }

    /// A reader at the start of `buf`.
    pub fn new(buf: &'a [u8]) -> (r: Self)
        ensures
            r.bytes() == buf@,
            r.position() == 0,
    {
        BitReader { buf, loc: 0 }
    }

    /// Read `nbits` (at most 16) from the stream and advance past them.
    pub fn read(&mut self, nbits: u32) -> (r: u32)
        requires
            nbits <= 16,
            old(self).position() + nbits <= usize::MAX,
        ensures
            r as int == field_at(old(self).bytes(), old(self).position(), nbits as int),
            final(self).bytes() == old(self).bytes(),
            final(self).position() == old(self).position() + nbits,
    {
        let loc = self.loc;
        proof {
            assert(loc & 7 == loc % 8 && loc >> 3 == loc / 8) by (bit_vector);
        }
        let bpos = (loc & 7) as u32;
        let byte = loc >> 3;
        let value = if self.loc < LDAC_MAXBITNUM {
            let b0: u32 = if byte < self.buf.len() { self.buf[byte] as u32 } else { 0 };
            let b1: u32 = if byte + 1 < self.buf.len() { self.buf[byte + 1] as u32 } else { 0 };
            let b2: u32 = if byte + 2 < self.buf.len() { self.buf[byte + 2] as u32 } else { 0 };
            let tmp: u32 = (b0 << 16) | (b1 << 8) | b2;
            proof {
                lemma_window(b0, b1, b2);
                lemma_extract(tmp, bpos, nbits);
            }
            ((tmp << bpos) & 0x00FF_FFFF) >> (24 - nbits)
        } else {
            0
        };
        self.loc += nbits as usize;
        value
    }

    /// Step back `nbits` bits (used after a look-ahead read).
    pub fn rewind(&mut self, nbits: u32)
        requires
            nbits <= old(self).position(),
        ensures
            final(self).bytes() == old(self).bytes(),
            final(self).position() == old(self).position() - nbits,
    {
        self.loc -= nbits as usize;
    }

    /// Current bit position.
    pub fn pos(&self) -> (r: usize)
        ensures
            r as int == self.position(),
    {
        self.loc
    }
}

/// A field of `n` bits holds a value in `0 .. 2^n`.
pub proof fn lemma_field_range(s: Seq<u8>, pos: int, n: int)
    requires
        0 <= n,
    ensures
        0 <= field_at(s, pos, n) < pow2(n as nat),
{
    vstd::arithmetic::power2::lemma_pow2_pos(n as nat);
    if pos < LDAC_MAXBITNUM {
        vstd::arithmetic::power2::lemma_pow2_pos((24 - pos % 8 - n) as nat);
        assert(window24(s, pos / 8) >= 0);
        vstd::arithmetic::div_mod::lemma_div_pos_is_pos(window24(s, pos / 8), pow2((24 - pos % 8 - n) as nat) as int);
        vstd::arithmetic::div_mod::lemma_mod_bound(
            window24(s, pos / 8) / pow2((24 - pos % 8 - n) as nat) as int, pow2(n as nat) as int);
    }
}

/// Law: zero bytes appended past the end of a stream change no read; the
/// reader sees the bytes past the buffer as zero.
pub proof fn lemma_zero_padding(s: Seq<u8>, k: nat, pos: int, n: int)
    ensures
        field_at(s + Seq::new(k, |i: int| 0u8), pos, n) == field_at(s, pos, n),
{
    let t = s + Seq::new(k, |i: int| 0u8);
    assert forall|i: int| #[trigger] byte_or_zero(t, i) == byte_or_zero(s, i) by {
        if 0 <= i < t.len() && i >= s.len() {
            assert(t[i] == 0u8);
        }
        if 0 <= i < s.len() {
            assert(t[i] == s[i]);
        }
    }
    assert(window24(t, pos / 8) == window24(s, pos / 8));
}

proof fn lemma_window(b0: u32, b1: u32, b2: u32)
    requires
        b0 < 256,
        b1 < 256,
        b2 < 256,
    ensures
        ((b0 << 16) | (b1 << 8) | b2) == b0 * 0x10000 + b1 * 0x100 + b2,
{
    assert(b0 < 256 && b1 < 256 && b2 < 256 ==> ((b0 << 16) | (b1 << 8) | b2) == b0 * 0x10000 + b1 * 0x100 + b2) by (bit_vector);
}

proof fn lemma_extract(tmp: u32, b: u32, n: u32)
    requires
        tmp < 0x1000000,
        b < 8,
        n <= 16,
    ensures
        ((tmp << b) & 0x00FF_FFFF) >> (24 - n) as u32
            == (tmp as nat / pow2((24 - b - n) as nat)) % pow2(n as nat),
{
    let k: u32 = (24 - b - n) as u32;
    assert(((tmp << b) & 0x00FF_FFFF) >> (24 - n) as u32 == (tmp >> k) & ((1u32 << n) - 1) as u32) by (bit_vector)
        requires
            tmp < 0x1000000,
            b < 8,
            n <= 16,
            k == 24 - b - n,
    ;
    lemma_u32_shr_is_div(tmp, k);
    lemma_low_bits_mask_values();
    assert(((1u32 << n) - 1) as u32 == low_bits_mask(n as nat) as u32) by {
        lemma_mask_value(n);
    }
    lemma_u32_low_bits_mask_is_mod(tmp >> k, n as nat);
    lemma2_to64();
}

proof fn lemma_mask_value(n: u32)
    requires
        n <= 16,
    ensures
        ((1u32 << n) - 1) as u32 == low_bits_mask(n as nat) as u32,
{
    lemma2_to64();
    if n < 16 {
        vstd::arithmetic::power2::lemma_pow2_strictly_increases(n as nat, 16);
    }
    vstd::bits::lemma_u32_shl_is_mul(1, n);
}

/// The three-byte field extraction on a window whose bytes are `b0..b4`:
/// the `a` bits at offset `o` of the first window, followed by the `b` bits
/// that come after them (read from the window `j` bytes further on), make
/// the `a + b` bits at offset `o`.
proof fn lemma_extract_concat(b0: u32, b1: u32, b2: u32, b3: u32, b4: u32, o: u32, a: u32, b: u32, j: u32)
    requires
        b0 < 256, b1 < 256, b2 < 256, b3 < 256, b4 < 256,
        o < 8,
        1 <= a,
        1 <= b,
        a + b <= 16,
        j == (o + a) / 8,
    ensures
        ({
            let w0 = (b0 << 16) | (b1 << 8) | b2;
            let wj = if j == 0 { w0 } else if j == 1 { (b1 << 16) | (b2 << 8) | b3 } else { (b2 << 16) | (b3 << 8) | b4 };
            let o2 = (o + a - 8 * j) as u32;
            ((((w0 << o) & 0x00FF_FFFF) >> (24 - a) as u32) << b) + (((wj << o2) & 0x00FF_FFFF) >> (24 - b) as u32)
                == ((w0 << o) & 0x00FF_FFFF) >> (24 - (a + b)) as u32
        }),
{
    if j == 0 {
        assert(((((((b0 << 16) | (b1 << 8) | b2) << o) & 0x00FF_FFFF) >> (24 - a) as u32) << b)
            + (((((b0 << 16) | (b1 << 8) | b2) << (o + a) as u32) & 0x00FF_FFFF) >> (24 - b) as u32)
            == ((((b0 << 16) | (b1 << 8) | b2) << o) & 0x00FF_FFFF) >> (24 - (a + b)) as u32) by (bit_vector)
            requires
                b0 < 256, b1 < 256, b2 < 256, o < 8, 1 <= a, 1 <= b, a + b <= 16, o + a < 8;
    } else if j == 1 {
        assert(((((((b0 << 16) | (b1 << 8) | b2) << o) & 0x00FF_FFFF) >> (24 - a) as u32) << b)
            + (((((b1 << 16) | (b2 << 8) | b3) << (o + a - 8) as u32) & 0x00FF_FFFF) >> (24 - b) as u32)
            == ((((b0 << 16) | (b1 << 8) | b2) << o) & 0x00FF_FFFF) >> (24 - (a + b)) as u32) by (bit_vector)
            requires
                b0 < 256, b1 < 256, b2 < 256, b3 < 256, o < 8, 1 <= a, 1 <= b, a + b <= 16, 8 <= o + a < 16;
    } else {
        assert(((((((b0 << 16) | (b1 << 8) | b2) << o) & 0x00FF_FFFF) >> (24 - a) as u32) << b)
            + (((((b2 << 16) | (b3 << 8) | b4) << (o + a - 16) as u32) & 0x00FF_FFFF) >> (24 - b) as u32)
            == ((((b0 << 16) | (b1 << 8) | b2) << o) & 0x00FF_FFFF) >> (24 - (a + b)) as u32) by (bit_vector)
            requires
                b0 < 256, b1 < 256, b2 < 256, b3 < 256, b4 < 256, o < 8, 1 <= a, 1 <= b, a + b <= 16, 16 <= o + a < 24;
    }
}

/// Law: two consecutive reads make one wider read: the `a` bits at `p`
/// followed by the `b` bits after them are the `a + b`-bit field at `p`, when
/// the second read starts before the bit limit.
pub proof fn lemma_fields_concat(s: Seq<u8>, p: int, a: int, b: int)
    requires
        0 <= p,
        1 <= a,
        1 <= b,
        a + b <= 16,
        p + a < LDAC_MAXBITNUM,
    ensures
        field_at(s, p, a) * pow2(b as nat) + field_at(s, p + a, b) == field_at(s, p, a + b),
{
    let i = p / 8;
    let o = p % 8;
    let j = (o + a) / 8;
    assert((p + a) / 8 == i + j && (p + a) % 8 == o + a - 8 * j);
    let b0 = byte_or_zero(s, i) as u32;
    let b1 = byte_or_zero(s, i + 1) as u32;
    let b2 = byte_or_zero(s, i + 2) as u32;
    let b3 = byte_or_zero(s, i + 3) as u32;
    let b4 = byte_or_zero(s, i + 4) as u32;
    let w0 = (b0 << 16) | (b1 << 8) | b2;
    let w1 = (b1 << 16) | (b2 << 8) | b3;
    let w2 = (b2 << 16) | (b3 << 8) | b4;
    lemma_window(b0, b1, b2);
    lemma_window(b1, b2, b3);
    lemma_window(b2, b3, b4);
    assert(w0 == window24(s, i));
    let wj = if j == 0 { w0 } else if j == 1 { w1 } else { w2 };
    assert(wj == window24(s, i + j));
    let o2 = (o + a - 8 * j) as u32;
    lemma_extract(w0, o as u32, a as u32);
    lemma_extract(w0, o as u32, (a + b) as u32);
    lemma_extract(wj, o2, b as u32);
    lemma_extract_concat(b0, b1, b2, b3, b4, o as u32, a as u32, b as u32, j as u32);
    let x = ((w0 << o as u32) & 0x00FF_FFFF) >> (24 - a) as u32;
    assert(x == field_at(s, p, a));
    lemma_field_range(s, p, a);
    lemma2_to64();
    vstd::arithmetic::power2::lemma_pow2_adds(a as nat, b as nat);
    if a + b < 16 {
        vstd::arithmetic::power2::lemma_pow2_strictly_increases((a + b) as nat, 16);
    }
    assert(x * pow2(b as nat) < pow2((a + b) as nat)) by (nonlinear_arith)
        requires x < pow2(a as nat), pow2((a + b) as nat) == pow2(a as nat) * pow2(b as nat), pow2(b as nat) > 0;
    vstd::arithmetic::power2::lemma_pow2_pos(b as nat);
    vstd::bits::lemma_u32_shl_is_mul(x, b as u32);
}

} // verus!
