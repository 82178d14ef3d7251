//! Bit-level packing: how sequences of bits live inside bytes (most
//! significant bit first) and how multi-byte integers are laid out in
//! little-endian order.

use vstd::prelude::*;

verus! {

/// Bit `j` of a byte, counting from the most significant bit.
pub open spec fn bit_at(b: u8, j: int) -> bool {
    (b >> ((7 - j) as u8)) & 1 == 1
}

/// All the bits of a byte sequence, most significant bit of each byte first.
pub open spec fn unpack(bytes: Seq<u8>) -> Seq<bool> {
    Seq::new(bytes.len() * 8, |k: int| bit_at(bytes[k / 8], k % 8))
}

/// A bit sequence padded with zero bits up to the next byte boundary.
pub open spec fn pad_bits(bits: Seq<bool>) -> Seq<bool> {
    bits + Seq::new(((8 - bits.len() % 8) % 8) as nat, |i: int| false)
}

/// The eight bits of a `Vec<bool>` starting at `start`, packed into one byte.
pub fn byte_from_bits(bits: &Vec<bool>, start: usize) -> (b: u8)
    requires
        start + 8 <= bits.len(),
    ensures
        forall|j: int| 0 <= j < 8 ==> bit_at(b, j) == bits@[start + j],
{
    let v0: u8 = if bits[start] { 1 } else { 0 };
    let v1: u8 = if bits[start + 1] { 1 } else { 0 };
    let v2: u8 = if bits[start + 2] { 1 } else { 0 };
    let v3: u8 = if bits[start + 3] { 1 } else { 0 };
    let v4: u8 = if bits[start + 4] { 1 } else { 0 };
    let v5: u8 = if bits[start + 5] { 1 } else { 0 };
    let v6: u8 = if bits[start + 6] { 1 } else { 0 };
    let v7: u8 = if bits[start + 7] { 1 } else { 0 };
    let b = (v0 << 7u8) | (v1 << 6u8) | (v2 << 5u8) | (v3 << 4u8) | (v4 << 3u8) | (v5 << 2u8) | (
    v6 << 1u8) | v7;
    proof {
        assert((b >> 7u8) & 1 == v0 && (b >> 6u8) & 1 == v1 && (b >> 5u8) & 1 == v2 && (b >> 4u8)
            & 1 == v3 && (b >> 3u8) & 1 == v4 && (b >> 2u8) & 1 == v5 && (b >> 1u8) & 1 == v6 && (b
            >> 0u8) & 1 == v7) by (bit_vector)
            requires
                b == (v0 << 7u8) | (v1 << 6u8) | (v2 << 5u8) | (v3 << 4u8) | (v4 << 3u8) | (v5
                    << 2u8) | (v6 << 1u8) | v7,
                v0 <= 1,
                v1 <= 1,
                v2 <= 1,
                v3 <= 1,
                v4 <= 1,
                v5 <= 1,
                v6 <= 1,
                v7 <= 1,
        ;
        assert forall|j: int| 0 <= j < 8 implies bit_at(b, j) == bits@[start + j] by {
            assert(j == 0 || j == 1 || j == 2 || j == 3 || j == 4 || j == 5 || j == 6 || j == 7);
        }
    }
    b
}

/// The little-endian bytes of a `u64`.
pub open spec fn u64_le(x: u64) -> Seq<u8> {
    seq![
        (x & 0xff) as u8,
        ((x >> 8u64) & 0xff) as u8,
        ((x >> 16u64) & 0xff) as u8,
        ((x >> 24u64) & 0xff) as u8,
        ((x >> 32u64) & 0xff) as u8,
        ((x >> 40u64) & 0xff) as u8,
        ((x >> 48u64) & 0xff) as u8,
        ((x >> 56u64) & 0xff) as u8,
    ]
}

/// The `u64` read from eight little-endian bytes.
pub open spec fn u64_from_le(s: Seq<u8>) -> u64 {
    (s[0] as u64) | ((s[1] as u64) << 8u64) | ((s[2] as u64) << 16u64) | ((s[3] as u64) << 24u64)
        | ((s[4] as u64) << 32u64) | ((s[5] as u64) << 40u64) | ((s[6] as u64) << 48u64) | ((
    s[7] as u64) << 56u64)
}

/// The little-endian bytes of a `u32`.
pub open spec fn u32_le(x: u32) -> Seq<u8> {
    seq![
        (x & 0xff) as u8,
        ((x >> 8u32) & 0xff) as u8,
        ((x >> 16u32) & 0xff) as u8,
        ((x >> 24u32) & 0xff) as u8,
    ]
}

/// The `u32` read from four little-endian bytes.
pub open spec fn u32_from_le(s: Seq<u8>) -> u32 {
    (s[0] as u32) | ((s[1] as u32) << 8u32) | ((s[2] as u32) << 16u32) | ((s[3] as u32) << 24u32)
}

/// Writing a `u64` and reading it back is the identity.
pub proof fn lemma_u64_le_roundtrip(x: u64)
    ensures
        u64_from_le(u64_le(x)) == x,
{
    let b0 = (x & 0xff) as u8;
    let b1 = ((x >> 8u64) & 0xff) as u8;
    let b2 = ((x >> 16u64) & 0xff) as u8;
    let b3 = ((x >> 24u64) & 0xff) as u8;
    let b4 = ((x >> 32u64) & 0xff) as u8;
    let b5 = ((x >> 40u64) & 0xff) as u8;
    let b6 = ((x >> 48u64) & 0xff) as u8;
    let b7 = ((x >> 56u64) & 0xff) as u8;
    assert((b0 as u64) | ((b1 as u64) << 8u64) | ((b2 as u64) << 16u64) | ((b3 as u64) << 24u64)
        | ((b4 as u64) << 32u64) | ((b5 as u64) << 40u64) | ((b6 as u64) << 48u64) | ((b7 as u64)
        << 56u64) == x) by (bit_vector)
        requires
            b0 == (x & 0xff) as u8,
            b1 == ((x >> 8u64) & 0xff) as u8,
            b2 == ((x >> 16u64) & 0xff) as u8,
            b3 == ((x >> 24u64) & 0xff) as u8,
            b4 == ((x >> 32u64) & 0xff) as u8,
            b5 == ((x >> 40u64) & 0xff) as u8,
            b6 == ((x >> 48u64) & 0xff) as u8,
            b7 == ((x >> 56u64) & 0xff) as u8,
    ;
}

/// Writing a `u32` and reading it back is the identity.
pub proof fn lemma_u32_le_roundtrip(x: u32)
    ensures
        u32_from_le(u32_le(x)) == x,
{
    let b0 = (x & 0xff) as u8;
    let b1 = ((x >> 8u32) & 0xff) as u8;
    let b2 = ((x >> 16u32) & 0xff) as u8;
    let b3 = ((x >> 24u32) & 0xff) as u8;
    assert((b0 as u32) | ((b1 as u32) << 8u32) | ((b2 as u32) << 16u32) | ((b3 as u32) << 24u32)
        == x) by (bit_vector)
        requires
            b0 == (x & 0xff) as u8,
            b1 == ((x >> 8u32) & 0xff) as u8,
            b2 == ((x >> 16u32) & 0xff) as u8,
            b3 == ((x >> 24u32) & 0xff) as u8,
    ;
}

/// Appends the little-endian bytes of a `u64`.
pub fn push_u64_le(out: &mut Vec<u8>, x: u64)
    ensures
        final(out)@ == old(out)@ + u64_le(x),
{
    proof {
        assert(x & 0xff < 256 && (x >> 8u64) & 0xff < 256 && (x >> 16u64) & 0xff < 256 && (x
            >> 24u64) & 0xff < 256 && (x >> 32u64) & 0xff < 256 && (x >> 40u64) & 0xff < 256 && (x
            >> 48u64) & 0xff < 256 && (x >> 56u64) & 0xff < 256) by (bit_vector);
    }
    out.push((x & 0xff) as u8);
    out.push(((x >> 8u64) & 0xff) as u8);
    out.push(((x >> 16u64) & 0xff) as u8);
    out.push(((x >> 24u64) & 0xff) as u8);
    out.push(((x >> 32u64) & 0xff) as u8);
    out.push(((x >> 40u64) & 0xff) as u8);
    out.push(((x >> 48u64) & 0xff) as u8);
    out.push(((x >> 56u64) & 0xff) as u8);
    proof {
        assert(out@ =~= old(out)@ + u64_le(x));
    }
}

/// Appends the little-endian bytes of a `u32`.
pub fn push_u32_le(out: &mut Vec<u8>, x: u32)
    ensures
        final(out)@ == old(out)@ + u32_le(x),
{
    proof {
        assert(x & 0xff < 256 && (x >> 8u32) & 0xff < 256 && (x >> 16u32) & 0xff < 256 && (x
            >> 24u32) & 0xff < 256) by (bit_vector);
    }
    out.push((x & 0xff) as u8);
    out.push(((x >> 8u32) & 0xff) as u8);
    out.push(((x >> 16u32) & 0xff) as u8);
    out.push(((x >> 24u32) & 0xff) as u8);
    proof {
        assert(out@ =~= old(out)@ + u32_le(x));
    }
}

/// Reads a `u64` from eight little-endian bytes at `offset`.
pub fn read_u64_le(data: &[u8], offset: usize) -> (x: u64)
    requires
        offset + 8 <= data@.len(),
    ensures
        x == u64_from_le(data@.subrange(offset as int, offset as int + 8)),
{
    let x = (data[offset] as u64) | ((data[offset + 1] as u64) << 8u64) | ((data[offset
        + 2] as u64) << 16u64) | ((data[offset + 3] as u64) << 24u64) | ((data[offset + 4] as u64)
        << 32u64) | ((data[offset + 5] as u64) << 40u64) | ((data[offset + 6] as u64) << 48u64) | (
    (data[offset + 7] as u64) << 56u64);
    proof {
        let s = data@.subrange(offset as int, offset as int + 8);
        assert(forall|i: int| 0 <= i < 8 ==> #[trigger] s[i] == data@[offset + i]);
    }
    x
}

/// Reads a `u32` from four little-endian bytes at `offset`.
pub fn read_u32_le(data: &[u8], offset: usize) -> (x: u32)
    requires
        offset + 4 <= data@.len(),
    ensures
        x == u32_from_le(data@.subrange(offset as int, offset as int + 4)),
{
    let x = (data[offset] as u32) | ((data[offset + 1] as u32) << 8u32) | ((data[offset
        + 2] as u32) << 16u32) | ((data[offset + 3] as u32) << 24u32);
    proof {
        let s = data@.subrange(offset as int, offset as int + 4);
        assert(forall|i: int| 0 <= i < 4 ==> #[trigger] s[i] == data@[offset + i]);
    }
    x
}

} // verus!
