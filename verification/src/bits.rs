//! Bit-level helpers shared by the transport implementations.
//!
//! Throughout this crate, bit 0 of a multi-bit unit is its *most* significant
//! bit; this matches the order in which bits go out on the wire.

use vstd::prelude::*;

verus! {

/// The bit of `b` at `i`, where bit 0 is the most significant bit of the
/// byte and bit 7 the least significant. Meaningful for `i < 8`.
pub open spec fn u8_bit(b: u8, i: u8) -> bool
    recommends
        i < 8,
{
    (b >> ((7 - i) as u8)) & 1u8 == 1u8
}

/// The bit of `w` at `i`, where bit 0 is the most significant bit of the
/// word and bit 15 the least significant. Meaningful for `i < 16`.
pub open spec fn u16_bit(w: u16, i: u16) -> bool
    recommends
        i < 16,
{
    (w >> ((15 - i) as u16)) & 1u16 == 1u16
}

/// The `n` most significant bits of `b`, most significant first.
pub open spec fn u8_msb_bits(b: u8, n: nat) -> Seq<bool>
    recommends
        n <= 8,
{
    Seq::new(n, |i: int| u8_bit(b, i as u8))
}

/// All 16 bits of `w`, most significant first.
pub open spec fn u16_bits(w: u16) -> Seq<bool> {
    Seq::new(16, |i: int| u16_bit(w, i as u16))
}

/// A word's bits are the bits of its high byte followed by the bits of its
/// low byte: the wire order of a word is its big-endian byte order.
pub proof fn lemma_u16_bits_split(w: u16)
    ensures
        u16_bits(w) == u8_msb_bits((w >> 8) as u8, 8) + u8_msb_bits(w as u8, 8),
{
    assert forall|i: int| 0 <= i < 16 implies u16_bits(w)[i] == (u8_msb_bits((w >> 8) as u8, 8)
        + u8_msb_bits(w as u8, 8))[i] by {
        let j = i as u16;
        if i < 8 {
            assert((w >> ((15 - j) as u16)) & 1u16 == 1u16 <==> (((w >> 8) as u8) >> ((7 - (
            j as u8)) as u8)) & 1u8 == 1u8) by (bit_vector)
                requires
                    j < 8,
            ;
        } else {
            assert((w >> ((15 - j) as u16)) & 1u16 == 1u16 <==> ((w as u8) >> ((7 - ((j
                - 8) as u8)) as u8)) & 1u8 == 1u8) by (bit_vector)
                requires
                    8 <= j < 16,
            ;
        }
    }
    assert(u16_bits(w) =~= u8_msb_bits((w >> 8) as u8, 8) + u8_msb_bits(w as u8, 8));
}

/// A byte is determined by its eight bits.
pub proof fn lemma_u8_bits_injective(a: u8, b: u8)
    requires
        u8_msb_bits(a, 8) == u8_msb_bits(b, 8),
    ensures
        a == b,
{
    let sa = u8_msb_bits(a, 8);
    let sb = u8_msb_bits(b, 8);
    assert(sa[0] == u8_bit(a, 0) && sb[0] == u8_bit(b, 0));
    assert(sa[1] == u8_bit(a, 1) && sb[1] == u8_bit(b, 1));
    assert(sa[2] == u8_bit(a, 2) && sb[2] == u8_bit(b, 2));
    assert(sa[3] == u8_bit(a, 3) && sb[3] == u8_bit(b, 3));
    assert(sa[4] == u8_bit(a, 4) && sb[4] == u8_bit(b, 4));
    assert(sa[5] == u8_bit(a, 5) && sb[5] == u8_bit(b, 5));
    assert(sa[6] == u8_bit(a, 6) && sb[6] == u8_bit(b, 6));
    assert(sa[7] == u8_bit(a, 7) && sb[7] == u8_bit(b, 7));
    assert(a == b) by (bit_vector)
        requires
            u8_bit(a, 0) == u8_bit(b, 0),
            u8_bit(a, 1) == u8_bit(b, 1),
            u8_bit(a, 2) == u8_bit(b, 2),
            u8_bit(a, 3) == u8_bit(b, 3),
            u8_bit(a, 4) == u8_bit(b, 4),
            u8_bit(a, 5) == u8_bit(b, 5),
            u8_bit(a, 6) == u8_bit(b, 6),
            u8_bit(a, 7) == u8_bit(b, 7),
    ;
}

/// A word is determined by its sixteen bits.
pub proof fn lemma_u16_bits_injective(a: u16, b: u16)
    requires
        u16_bits(a) == u16_bits(b),
    ensures
        a == b,
{
    lemma_u16_bits_split(a);
    lemma_u16_bits_split(b);
    assert(u8_msb_bits((a >> 8) as u8, 8) =~= u16_bits(a).take(8));
    assert(u8_msb_bits(a as u8, 8) =~= u16_bits(a).skip(8));
    assert(u8_msb_bits((b >> 8) as u8, 8) =~= u16_bits(b).take(8));
    assert(u8_msb_bits(b as u8, 8) =~= u16_bits(b).skip(8));
    lemma_u8_bits_injective((a >> 8) as u8, (b >> 8) as u8);
    lemma_u8_bits_injective(a as u8, b as u8);
    assert(a == b) by (bit_vector)
        requires
            (a >> 8) as u8 == (b >> 8) as u8,
            a as u8 == b as u8,
    ;
}

/// Whether or not the bit at the given index is set.
///
/// Takes a `bit_index` in the range `0..8`, where `0` is the most significant
/// bit in the byte, `7` the least significant.
pub fn bit_is_set(byte: u8, bit_index: usize) -> (r: bool)
    requires
        bit_index < 8,
    ensures
        r == u8_bit(byte, bit_index as u8),
{
    let shift: u8 = (7 - bit_index) as u8;
    let out_bit = (byte >> shift) & 0b1;
    out_bit == 1
}

/// Set the bit at the given index, leaving every other bit as it was.
///
/// Takes a `bit_index` in the range `0..8`, where `0` is the most significant
/// bit in the byte, `7` the least significant.
pub fn set_bit(byte: &mut u8, bit_index: usize)
    requires
        bit_index < 8,
    ensures
        forall|j: u8|
            j < 8 ==> u8_bit(*final(byte), j) == (j == bit_index as u8 || u8_bit(*old(byte), j)),
{
    let shift: u8 = (7 - bit_index) as u8;
    *byte |= 1u8 << shift;
    proof {
        let nb = *byte;
        let ob = *old(byte);
        let k = bit_index as u8;
        assert forall|j: u8| j < 8 implies u8_bit(nb, j) == (j == k || u8_bit(ob, j)) by {
            assert(((nb >> ((7 - j) as u8)) & 1u8 == 1u8) == (j == k || ((ob >> ((7 - j) as u8))
                & 1u8 == 1u8))) by (bit_vector)
                requires
                    nb == ob | (1u8 << ((7 - k) as u8)),
                    j < 8,
                    k < 8,
            ;
        }
    }
}

} // verus!
