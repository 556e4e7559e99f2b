//! Little-endian and big-endian packing of fixed-width unsigned integers.
//!
//! A value of width `w` bytes is written into, or read from, the first `w`
//! bytes of a buffer; the rest of the buffer is left alone.

use vstd::prelude::*;

verus! {

/// Byte `k` of `n`, counting from the least significant one.
pub open spec fn byte_of(n: u64, k: nat) -> u8 {
    ((n >> ((8 * k) as u64)) & 0xff) as u8
}

/// The `width` bytes of `n` in buffer order: least significant first when
/// `big` is false, most significant first when it is true.
pub open spec fn int_bytes(n: u64, width: nat, big: bool) -> Seq<u8> {
    Seq::new(
        width,
        |i: int|
            if big {
                byte_of(n, (width - 1 - i) as nat)
            } else {
                byte_of(n, i as nat)
            },
    )
}

proof fn lemma_split_u16(n: u16)
    by (bit_vector)
    ensures
        n as u8 == byte_of(n as u64, 0),
        (n >> 8) as u8 == byte_of(n as u64, 1),
{
}

proof fn lemma_split_u32(n: u32)
    by (bit_vector)
    ensures
        n as u8 == byte_of(n as u64, 0),
        (n >> 8) as u8 == byte_of(n as u64, 1),
        (n >> 16) as u8 == byte_of(n as u64, 2),
        (n >> 24) as u8 == byte_of(n as u64, 3),
{
}

proof fn lemma_split_u64(n: u64)
    by (bit_vector)
    ensures
        n as u8 == byte_of(n, 0),
        (n >> 8) as u8 == byte_of(n, 1),
        (n >> 16) as u8 == byte_of(n, 2),
        (n >> 24) as u8 == byte_of(n, 3),
        (n >> 32) as u8 == byte_of(n, 4),
        (n >> 40) as u8 == byte_of(n, 5),
        (n >> 48) as u8 == byte_of(n, 6),
        (n >> 56) as u8 == byte_of(n, 7),
{
}

proof fn lemma_join_u16(b0: u8, b1: u8)
    by (bit_vector)
    ensures
        ({
            let n = (b0 as u16) | ((b1 as u16) << 8);
            &&& byte_of(n as u64, 0) == b0
            &&& byte_of(n as u64, 1) == b1
        }),
{
}

proof fn lemma_join_u32(b0: u8, b1: u8, b2: u8, b3: u8)
    by (bit_vector)
    ensures
        ({
            let n = (b0 as u32) | ((b1 as u32) << 8) | ((b2 as u32) << 16) | ((b3 as u32) << 24);
            &&& byte_of(n as u64, 0) == b0
            &&& byte_of(n as u64, 1) == b1
            &&& byte_of(n as u64, 2) == b2
            &&& byte_of(n as u64, 3) == b3
        }),
{
}

proof fn lemma_join_u64(b0: u8, b1: u8, b2: u8, b3: u8, b4: u8, b5: u8, b6: u8, b7: u8)
    by (bit_vector)
    ensures
        ({
            let n = (b0 as u64) | ((b1 as u64) << 8) | ((b2 as u64) << 16) | ((b3 as u64) << 24)
                | ((b4 as u64) << 32) | ((b5 as u64) << 40) | ((b6 as u64) << 48) | ((b7 as u64)
                << 56);
            &&& byte_of(n, 0) == b0
            &&& byte_of(n, 1) == b1
            &&& byte_of(n, 2) == b2
            &&& byte_of(n, 3) == b3
            &&& byte_of(n, 4) == b4
            &&& byte_of(n, 5) == b5
            &&& byte_of(n, 6) == b6
            &&& byte_of(n, 7) == b7
        }),
{
}

proof fn lemma_bytes_determine_u64(x: u64, y: u64)
    by (bit_vector)
    requires
        byte_of(x, 0) == byte_of(y, 0),
        byte_of(x, 1) == byte_of(y, 1),
        byte_of(x, 2) == byte_of(y, 2),
        byte_of(x, 3) == byte_of(y, 3),
        byte_of(x, 4) == byte_of(y, 4),
        byte_of(x, 5) == byte_of(y, 5),
        byte_of(x, 6) == byte_of(y, 6),
        byte_of(x, 7) == byte_of(y, 7),
    ensures
        x == y,
{
}

proof fn lemma_high_bytes_zero(n: u64, w: u64)
    by (bit_vector)
    requires
        w == 2 || w == 4,
        w == 2 ==> n < 0x1_0000,
        w == 4 ==> n < 0x1_0000_0000,
    ensures
        w == 2 ==> byte_of(n, 2) == 0 && byte_of(n, 3) == 0,
        byte_of(n, 4) == 0,
        byte_of(n, 5) == 0,
        byte_of(n, 6) == 0,
        byte_of(n, 7) == 0,
{
}

/// Two values of `width` bytes (2, 4 or 8) with the same bytes in the same
/// order are equal.
proof fn lemma_int_bytes_injective(x: u64, y: u64, width: nat, big: bool)
    requires
        width == 2 || width == 4 || width == 8,
        width == 2 ==> x < 0x1_0000 && y < 0x1_0000,
        width == 4 ==> x < 0x1_0000_0000 && y < 0x1_0000_0000,
        int_bytes(x, width, big) == int_bytes(y, width, big),
    ensures
        x == y,
{
    assert forall|k: nat| k < width implies byte_of(x, k) == byte_of(y, k) by {
        let i: int = if big { width - 1 - k } else { k as int };
        assert(int_bytes(x, width, big)[i] == int_bytes(y, width, big)[i]);
        assert(int_bytes(x, width, big)[i] == byte_of(x, k));
        assert(int_bytes(y, width, big)[i] == byte_of(y, k));
    }
    if width < 8 {
        lemma_high_bytes_zero(x, width as u64);
        lemma_high_bytes_zero(y, width as u64);
    }
    lemma_bytes_determine_u64(x, y);
}

/// Decoding what `encode_u16` wrote gives back the value: the only `u16`
/// whose two bytes, in either order, are those of `n` is `n` itself.
pub proof fn lemma_u16_round_trip(n: u16, r: u16, big: bool)
    requires
        int_bytes(r as u64, 2, big) == int_bytes(n as u64, 2, big),
    ensures
        r == n,
{
    lemma_int_bytes_injective(r as u64, n as u64, 2, big);
}

/// Decoding what `encode_u32` wrote gives back the value: the only `u32`
/// whose four bytes, in either order, are those of `n` is `n` itself.
pub proof fn lemma_u32_round_trip(n: u32, r: u32, big: bool)
    requires
        int_bytes(r as u64, 4, big) == int_bytes(n as u64, 4, big),
    ensures
        r == n,
{
    lemma_int_bytes_injective(r as u64, n as u64, 4, big);
}

/// Decoding what `encode_u64` wrote gives back the value: the only `u64`
/// whose eight bytes, in either order, are those of `n` is `n` itself.
pub proof fn lemma_u64_round_trip(n: u64, r: u64, big: bool)
    requires
        int_bytes(r, 8, big) == int_bytes(n, 8, big),
    ensures
        r == n,
{
    lemma_int_bytes_injective(r, n, 8, big);
}

/// A byte order: how the bytes of a fixed-width integer are laid out in a
/// buffer.
///
/// Each `encode_*` writes the value into the first bytes of the buffer and
/// leaves the rest unchanged; each `decode_*` returns the value whose bytes
/// are the first bytes of the buffer.
pub trait ByteOrder {
    /// Whether the most significant byte comes first.
    spec fn big_endian() -> bool;

    fn encode_u16(n: u16, b: &mut [u8])
        requires
            old(b)@.len() >= 2,
        ensures
            final(b)@ == int_bytes(n as u64, 2, Self::big_endian()) + old(b)@.skip(2),
    ;

    fn encode_u32(n: u32, b: &mut [u8])
        requires
            old(b)@.len() >= 4,
        ensures
            final(b)@ == int_bytes(n as u64, 4, Self::big_endian()) + old(b)@.skip(4),
    ;

    fn encode_u64(n: u64, b: &mut [u8])
        requires
            old(b)@.len() >= 8,
        ensures
            final(b)@ == int_bytes(n, 8, Self::big_endian()) + old(b)@.skip(8),
    ;

    fn decode_u16(b: &[u8]) -> (r: u16)
        requires
            b@.len() >= 2,
        ensures
            int_bytes(r as u64, 2, Self::big_endian()) == b@.take(2),
    ;

    fn decode_u32(b: &[u8]) -> (r: u32)
        requires
            b@.len() >= 4,
        ensures
            int_bytes(r as u64, 4, Self::big_endian()) == b@.take(4),
    ;

    fn decode_u64(b: &[u8]) -> (r: u64)
        requires
            b@.len() >= 8,
        ensures
            int_bytes(r, 8, Self::big_endian()) == b@.take(8),
    ;
}

/// Least significant byte first.
pub struct LittleEndian;

impl ByteOrder for LittleEndian {
    open spec fn big_endian() -> bool {
        false
    }

    fn encode_u16(n: u16, b: &mut [u8]) {
        b[0] = n as u8;
        b[1] = (n >> 8) as u8;
        proof {
            lemma_split_u16(n);
            assert(b@ =~= int_bytes(n as u64, 2, false) + old(b)@.skip(2));
        }
    }

    fn encode_u32(n: u32, b: &mut [u8]) {
        b[0] = n as u8;
        b[1] = (n >> 8) as u8;
        b[2] = (n >> 16) as u8;
        b[3] = (n >> 24) as u8;
        proof {
            lemma_split_u32(n);
            assert(b@ =~= int_bytes(n as u64, 4, false) + old(b)@.skip(4));
        }
    }

    fn encode_u64(n: u64, b: &mut [u8]) {
        b[0] = n as u8;
        b[1] = (n >> 8) as u8;
        b[2] = (n >> 16) as u8;
        b[3] = (n >> 24) as u8;
        b[4] = (n >> 32) as u8;
        b[5] = (n >> 40) as u8;
        b[6] = (n >> 48) as u8;
        b[7] = (n >> 56) as u8;
        proof {
            lemma_split_u64(n);
            assert(b@ =~= int_bytes(n, 8, false) + old(b)@.skip(8));
        }
    }

    fn decode_u16(b: &[u8]) -> (r: u16) {
        let r = (b[0] as u16) | ((b[1] as u16) << 8);
        proof {
            lemma_join_u16(b[0], b[1]);
            assert(int_bytes(r as u64, 2, false) =~= b@.take(2));
        }
        r
    }

    fn decode_u32(b: &[u8]) -> (r: u32) {
        let r = (b[0] as u32) | ((b[1] as u32) << 8) | ((b[2] as u32) << 16) | ((b[3] as u32)
            << 24);
        proof {
            lemma_join_u32(b[0], b[1], b[2], b[3]);
            assert(int_bytes(r as u64, 4, false) =~= b@.take(4));
        }
        r
    }

    fn decode_u64(b: &[u8]) -> (r: u64) {
        let r = (b[0] as u64) | ((b[1] as u64) << 8) | ((b[2] as u64) << 16) | ((b[3] as u64)
            << 24) | ((b[4] as u64) << 32) | ((b[5] as u64) << 40) | ((b[6] as u64) << 48) | ((
        b[7] as u64) << 56);
        proof {
            lemma_join_u64(b[0], b[1], b[2], b[3], b[4], b[5], b[6], b[7]);
            assert(int_bytes(r, 8, false) =~= b@.take(8));
        }
        r
    }
}

/// Most significant byte first.
pub struct BigEndian;

impl ByteOrder for BigEndian {
    open spec fn big_endian() -> bool {
        true
    }

    fn encode_u16(n: u16, b: &mut [u8]) {
        b[0] = (n >> 8) as u8;
        b[1] = n as u8;
        proof {
            lemma_split_u16(n);
            assert(b@ =~= int_bytes(n as u64, 2, true) + old(b)@.skip(2));
        }
    }

    fn encode_u32(n: u32, b: &mut [u8]) {
        b[0] = (n >> 24) as u8;
        b[1] = (n >> 16) as u8;
        b[2] = (n >> 8) as u8;
        b[3] = n as u8;
        proof {
            lemma_split_u32(n);
            assert(b@ =~= int_bytes(n as u64, 4, true) + old(b)@.skip(4));
        }
    }

    fn encode_u64(n: u64, b: &mut [u8]) {
        b[0] = (n >> 56) as u8;
        b[1] = (n >> 48) as u8;
        b[2] = (n >> 40) as u8;
        b[3] = (n >> 32) as u8;
        b[4] = (n >> 24) as u8;
        b[5] = (n >> 16) as u8;
        b[6] = (n >> 8) as u8;
        b[7] = n as u8;
        proof {
            lemma_split_u64(n);
            assert(b@ =~= int_bytes(n, 8, true) + old(b)@.skip(8));
        }
    }

    fn decode_u16(b: &[u8]) -> (r: u16) {
        let r = (b[1] as u16) | ((b[0] as u16) << 8);
        proof {
            lemma_join_u16(b[1], b[0]);
            assert(int_bytes(r as u64, 2, true) =~= b@.take(2));
        }
        r
    }

    fn decode_u32(b: &[u8]) -> (r: u32) {
        let r = (b[3] as u32) | ((b[2] as u32) << 8) | ((b[1] as u32) << 16) | ((b[0] as u32)
            << 24);
        proof {
            lemma_join_u32(b[3], b[2], b[1], b[0]);
            assert(int_bytes(r as u64, 4, true) =~= b@.take(4));
        }
        r
    }

    fn decode_u64(b: &[u8]) -> (r: u64) {
        let r = (b[7] as u64) | ((b[6] as u64) << 8) | ((b[5] as u64) << 16) | ((b[4] as u64)
            << 24) | ((b[3] as u64) << 32) | ((b[2] as u64) << 40) | ((b[1] as u64) << 48) | ((
        b[0] as u64) << 56);
        proof {
            lemma_join_u64(b[7], b[6], b[5], b[4], b[3], b[2], b[1], b[0]);
            assert(int_bytes(r, 8, true) =~= b@.take(8));
        }
        r
    }
}

} // verus!
