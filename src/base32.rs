//! Base32 (RFC 4648): five bytes become eight symbols of a 32-symbol
//! alphabet, and a short final group is filled up with `=`.

use crate::symbols::{
    INVALID, PAD, byte_message, decimal, inverse_table, invert_alphabet, is_alphabet,
    lemma_inverse_table, lemma_table_matches,
};
use vstd::prelude::*;
use vstd::string::StringExecFns;

verus! {

/// The standard alphabet.
pub const ENCODE_STD: [u8; 32] = [
    0x41, 0x42, 0x43, 0x44, 0x45, 0x46, 0x47, 0x48, 0x49, 0x4a, 0x4b, 0x4c, 0x4d, 0x4e, 0x4f, 0x50,
    0x51, 0x52, 0x53, 0x54, 0x55, 0x56, 0x57, 0x58, 0x59, 0x5a, 0x32, 0x33, 0x34, 0x35, 0x36, 0x37,
];

/// The extended hex alphabet.
pub const ENCODE_HEX: [u8; 32] = [
    0x30, 0x31, 0x32, 0x33, 0x34, 0x35, 0x36, 0x37, 0x38, 0x39, 0x41, 0x42, 0x43, 0x44, 0x45, 0x46,
    0x47, 0x48, 0x49, 0x4a, 0x4b, 0x4c, 0x4d, 0x4e, 0x4f, 0x50, 0x51, 0x52, 0x53, 0x54, 0x55, 0x56,
];

/// Decode table of the standard alphabet.
pub const DECODE_STD_MAP: [u8; 256] = [
    0xff, 0xff, 0xff, 0xff, 0xff, 0xff, 0xff, 0xff, 0xff, 0xff, 0xff, 0xff, 0xff, 0xff, 0xff, 0xff,
    0xff, 0xff, 0xff, 0xff, 0xff, 0xff, 0xff, 0xff, 0xff, 0xff, 0xff, 0xff, 0xff, 0xff, 0xff, 0xff,
    0xff, 0xff, 0xff, 0xff, 0xff, 0xff, 0xff, 0xff, 0xff, 0xff, 0xff, 0xff, 0xff, 0xff, 0xff, 0xff,
    0xff, 0xff, 0x1a, 0x1b, 0x1c, 0x1d, 0x1e, 0x1f, 0xff, 0xff, 0xff, 0xff, 0xff, 0xff, 0xff, 0xff,
    0xff, 0x00, 0x01, 0x02, 0x03, 0x04, 0x05, 0x06, 0x07, 0x08, 0x09, 0x0a, 0x0b, 0x0c, 0x0d, 0x0e,
    0x0f, 0x10, 0x11, 0x12, 0x13, 0x14, 0x15, 0x16, 0x17, 0x18, 0x19, 0xff, 0xff, 0xff, 0xff, 0xff,
    0xff, 0xff, 0xff, 0xff, 0xff, 0xff, 0xff, 0xff, 0xff, 0xff, 0xff, 0xff, 0xff, 0xff, 0xff, 0xff,
    0xff, 0xff, 0xff, 0xff, 0xff, 0xff, 0xff, 0xff, 0xff, 0xff, 0xff, 0xff, 0xff, 0xff, 0xff, 0xff,
    0xff, 0xff, 0xff, 0xff, 0xff, 0xff, 0xff, 0xff, 0xff, 0xff, 0xff, 0xff, 0xff, 0xff, 0xff, 0xff,
    0xff, 0xff, 0xff, 0xff, 0xff, 0xff, 0xff, 0xff, 0xff, 0xff, 0xff, 0xff, 0xff, 0xff, 0xff, 0xff,
    0xff, 0xff, 0xff, 0xff, 0xff, 0xff, 0xff, 0xff, 0xff, 0xff, 0xff, 0xff, 0xff, 0xff, 0xff, 0xff,
    0xff, 0xff, 0xff, 0xff, 0xff, 0xff, 0xff, 0xff, 0xff, 0xff, 0xff, 0xff, 0xff, 0xff, 0xff, 0xff,
    0xff, 0xff, 0xff, 0xff, 0xff, 0xff, 0xff, 0xff, 0xff, 0xff, 0xff, 0xff, 0xff, 0xff, 0xff, 0xff,
    0xff, 0xff, 0xff, 0xff, 0xff, 0xff, 0xff, 0xff, 0xff, 0xff, 0xff, 0xff, 0xff, 0xff, 0xff, 0xff,
    0xff, 0xff, 0xff, 0xff, 0xff, 0xff, 0xff, 0xff, 0xff, 0xff, 0xff, 0xff, 0xff, 0xff, 0xff, 0xff,
    0xff, 0xff, 0xff, 0xff, 0xff, 0xff, 0xff, 0xff, 0xff, 0xff, 0xff, 0xff, 0xff, 0xff, 0xff, 0xff,
];

/// Decode table of the extended hex alphabet.
pub const DECODE_HEX_MAP: [u8; 256] = [
    0xff, 0xff, 0xff, 0xff, 0xff, 0xff, 0xff, 0xff, 0xff, 0xff, 0xff, 0xff, 0xff, 0xff, 0xff, 0xff,
    0xff, 0xff, 0xff, 0xff, 0xff, 0xff, 0xff, 0xff, 0xff, 0xff, 0xff, 0xff, 0xff, 0xff, 0xff, 0xff,
    0xff, 0xff, 0xff, 0xff, 0xff, 0xff, 0xff, 0xff, 0xff, 0xff, 0xff, 0xff, 0xff, 0xff, 0xff, 0xff,
    0x00, 0x01, 0x02, 0x03, 0x04, 0x05, 0x06, 0x07, 0x08, 0x09, 0xff, 0xff, 0xff, 0xff, 0xff, 0xff,
    0xff, 0x0a, 0x0b, 0x0c, 0x0d, 0x0e, 0x0f, 0x10, 0x11, 0x12, 0x13, 0x14, 0x15, 0x16, 0x17, 0x18,
    0x19, 0x1a, 0x1b, 0x1c, 0x1d, 0x1e, 0x1f, 0xff, 0xff, 0xff, 0xff, 0xff, 0xff, 0xff, 0xff, 0xff,
    0xff, 0xff, 0xff, 0xff, 0xff, 0xff, 0xff, 0xff, 0xff, 0xff, 0xff, 0xff, 0xff, 0xff, 0xff, 0xff,
    0xff, 0xff, 0xff, 0xff, 0xff, 0xff, 0xff, 0xff, 0xff, 0xff, 0xff, 0xff, 0xff, 0xff, 0xff, 0xff,
    0xff, 0xff, 0xff, 0xff, 0xff, 0xff, 0xff, 0xff, 0xff, 0xff, 0xff, 0xff, 0xff, 0xff, 0xff, 0xff,
    0xff, 0xff, 0xff, 0xff, 0xff, 0xff, 0xff, 0xff, 0xff, 0xff, 0xff, 0xff, 0xff, 0xff, 0xff, 0xff,
    0xff, 0xff, 0xff, 0xff, 0xff, 0xff, 0xff, 0xff, 0xff, 0xff, 0xff, 0xff, 0xff, 0xff, 0xff, 0xff,
    0xff, 0xff, 0xff, 0xff, 0xff, 0xff, 0xff, 0xff, 0xff, 0xff, 0xff, 0xff, 0xff, 0xff, 0xff, 0xff,
    0xff, 0xff, 0xff, 0xff, 0xff, 0xff, 0xff, 0xff, 0xff, 0xff, 0xff, 0xff, 0xff, 0xff, 0xff, 0xff,
    0xff, 0xff, 0xff, 0xff, 0xff, 0xff, 0xff, 0xff, 0xff, 0xff, 0xff, 0xff, 0xff, 0xff, 0xff, 0xff,
    0xff, 0xff, 0xff, 0xff, 0xff, 0xff, 0xff, 0xff, 0xff, 0xff, 0xff, 0xff, 0xff, 0xff, 0xff, 0xff,
    0xff, 0xff, 0xff, 0xff, 0xff, 0xff, 0xff, 0xff, 0xff, 0xff, 0xff, 0xff, 0xff, 0xff, 0xff, 0xff,
];

/// The padding symbol.
pub const PAD_CHAR: u8 = 0x3d;

/// Errors of base32 decoding.
#[derive(Debug, PartialEq, Eq, Structural)]
pub enum Base32Error {
    /// A symbol before the padding is not in the alphabet.
    InvalidByte(InvalidByteError),
    /// The length of the input is not a multiple of eight.
    InvalidLength,
    /// The final group is not a canonical run of symbols followed by `=`
    /// up to its end.
    InvalidPadding,
}

/// A byte that is not a symbol of the alphabet in use.
#[derive(Debug, PartialEq, Eq, Structural)]
pub struct InvalidByteError {
    /// The offending byte.
    pub b: u8,
}

impl InvalidByteError {
    pub fn new(b: u8) -> (r: Self)
        ensures
            r == (InvalidByteError { b }),
    {
        Self { b }
    }

    /// The text that reports this error.
    pub fn message(&self) -> (r: String)
        ensures
            r@ == "encoding/base32: invalid byte: "@ + decimal(self.b as nat),
    {
        byte_message("encoding/base32: invalid byte: ", self.b)
    }
}

impl Base32Error {
    /// The text that reports this error.
    pub fn message(&self) -> (r: String)
        ensures
            r@ == match self {
                Base32Error::InvalidByte(e) => "encoding/base32: invalid byte: "@ + decimal(e.b as nat),
                Base32Error::InvalidLength => "encoding/base32: invalid input length"@,
                Base32Error::InvalidPadding => "encoding/base32: invalid padding"@,
            },
    {
        match self {
            Base32Error::InvalidByte(e) => e.message(),
            Base32Error::InvalidLength => String::from_str("encoding/base32: invalid input length"),
            Base32Error::InvalidPadding => String::from_str("encoding/base32: invalid padding"),
        }
    }
}

/// Length of the encoding of `n` bytes: one group of eight symbols for every
/// five bytes or part of five.
pub open spec fn encoded_len(n: nat) -> nat {
    (n + 4) / 5 * 8
}

/// Upper bound on the length of what a text of `n` symbols decodes to:
/// five bytes per whole group of eight.
pub open spec fn max_decoded_len(n: nat) -> nat {
    n / 8 * 5
}

/// Number of symbols that carry data in the encoding of `n` bytes: its
/// `8 * n` bits in whole five-bit symbols, rounded up.
pub open spec fn data_symbols(n: nat) -> nat {
    (8 * n + 4) / 5
}

/// Byte `i` of `s`, or zero past its end.
pub open spec fn byte_or_zero(s: Seq<u8>, i: int) -> u8 {
    if 0 <= i < s.len() {
        s[i]
    } else {
        0
    }
}

/// The 40 bits of group `g` of `s`: bytes `5g` to `5g+4`, most significant
/// first, missing bytes taken as zero.
pub open spec fn group_bits(s: Seq<u8>, g: int) -> u64 {
    (byte_or_zero(s, 5 * g) as u64) << 32 | (byte_or_zero(s, 5 * g + 1) as u64) << 24 | (
    byte_or_zero(s, 5 * g + 2) as u64) << 16 | (byte_or_zero(s, 5 * g + 3) as u64) << 8 | (
    byte_or_zero(s, 5 * g + 4) as u64)
}

/// Five-bit field `k` (0 to 7) of a 40-bit group, from the most significant
/// end.
pub open spec fn quintet(v: u64, k: int) -> u64 {
    (v >> ((35 - 5 * k) as u64)) & 0x1F
}

/// The base32 encoding of `s` with alphabet `a`: symbol `j` is the alphabet
/// entry of the `j`-th five bits of `s` while those carry data, and padding
/// after that.
pub open spec fn encode_spec(s: Seq<u8>, a: Seq<u8>) -> Seq<u8> {
    Seq::new(
        encoded_len(s.len()),
        |j: int|
            if j < data_symbols(s.len()) {
                a[quintet(group_bits(s, j / 8), j % 8) as int]
            } else {
                PAD
            },
    )
}

proof fn lemma_group_round_trip(b0: u8, b1: u8, b2: u8, b3: u8, b4: u8)
    by (bit_vector)
    ensures
        ({
            let v = (b0 as u64) << 32 | (b1 as u64) << 24 | (b2 as u64) << 16 | (b3 as u64) << 8
                | (b4 as u64);
            let w = quintet(v, 0) << 35 | quintet(v, 1) << 30 | quintet(v, 2) << 25 | quintet(v, 3)
                << 20 | quintet(v, 4) << 15 | quintet(v, 5) << 10 | quintet(v, 6) << 5 | quintet(
                v,
                7,
            );
            &&& (w >> ((32 - 8 * 0) as u64)) & 0xFF == b0
            &&& (w >> ((32 - 8 * 1) as u64)) & 0xFF == b1
            &&& (w >> ((32 - 8 * 2) as u64)) & 0xFF == b2
            &&& (w >> ((32 - 8 * 3) as u64)) & 0xFF == b3
            &&& (w >> ((32 - 8 * 4) as u64)) & 0xFF == b4
            &&& quintet(v, 0) < 32
            &&& quintet(v, 1) < 32
            &&& quintet(v, 2) < 32
            &&& quintet(v, 3) < 32
            &&& quintet(v, 4) < 32
            &&& quintet(v, 5) < 32
            &&& quintet(v, 6) < 32
            &&& quintet(v, 7) < 32
            &&& b0 == 0 && b1 == 0 && b2 == 0 && b3 == 0 && b4 == 0 ==> quintet(v, 0) == 0
                && quintet(v, 1) == 0
            &&& b1 == 0 && b2 == 0 && b3 == 0 && b4 == 0 ==> quintet(v, 2) == 0 && quintet(v, 3)
                == 0
            &&& b2 == 0 && b3 == 0 && b4 == 0 ==> quintet(v, 4) == 0
            &&& b3 == 0 && b4 == 0 ==> quintet(v, 5) == 0 && quintet(v, 6) == 0
            &&& b4 == 0 ==> quintet(v, 7) == 0
        }),
{
}

/// Writes the eight symbols of one group with bits `val` at `at`: the first
/// `count` are alphabet entries, the others padding.
fn put_symbols(dst: &mut [u8], at: usize, val: u64, count: usize, encode_map: &[u8])
    requires
        at + 8 <= old(dst)@.len() <= usize::MAX,
        count <= 8,
        encode_map@.len() >= 32,
    ensures
        final(dst)@.len() == old(dst)@.len(),
        forall|k: int|
            0 <= k < 8 ==> #[trigger] final(dst)@[at + k] == if k < count {
                encode_map@[quintet(val, k) as int]
            } else {
                PAD
            },
        forall|i: int|
            0 <= i < final(dst)@.len() && !(at <= i < at + 8) ==> #[trigger] final(dst)@[i]
                == old(dst)@[i],
{
    let mut k: usize = 0;
    while k < 8
        invariant
            at + 8 <= dst@.len() <= usize::MAX,
            dst@.len() == old(dst)@.len(),
            count <= 8,
            encode_map@.len() >= 32,
            k <= 8,
            forall|m: int|
                0 <= m < k ==> #[trigger] dst@[at + m] == if m < count {
                    encode_map@[quintet(val, m) as int]
                } else {
                    PAD
                },
            forall|i: int|
                0 <= i < dst@.len() && !(at <= i < at + k) ==> #[trigger] dst@[i] == old(dst)@[i],
        decreases 8 - k,
    {
        if k < count {
            let q = (val >> ((35 - 5 * k) as u64)) & 0x1F;
            proof {
                assert(q == quintet(val, k as int));
                assert(q < 32) by (bit_vector)
                    requires
                        q == (val >> ((35 - 5 * k) as u64)) & 0x1F,
                ;
            }
            dst[at + k] = encode_map[q as usize];
        } else {
            dst[at + k] = PAD_CHAR;
        }
        k += 1;
    }
}

/// Encodes `src` into the first `encode_len(src.len())` bytes of `dst` with
/// the alphabet `encode_map`.
pub fn encode(dst: &mut [u8], src: &[u8], encode_map: &[u8])
    requires
        encode_map@.len() >= 32,
        old(dst)@.len() >= encoded_len(src@.len()),
    ensures
        final(dst)@ == encode_spec(src@, encode_map@) + old(dst)@.skip(
            encoded_len(src@.len()) as int,
        ),
{
    let src_len = src.len();
    let ghost s = src@;
    let ghost a = encode_map@;
    let ghost out = encode_spec(s, a);
    let mut src_idx: usize = 0;
    let mut dst_idx: usize = 0;
    assert(dst@.len() == dst.len());
    while src_idx < src_len
        invariant
            src_len == s.len(),
            a == encode_map@,
            a.len() >= 32,
            out == encode_spec(s, a),
            s == src@,
            src_idx % 5 == 0,
            src_idx <= src_len + 4,
            src_idx >= src_len ==> src_idx < src_len + 5,
            dst_idx == src_idx / 5 * 8,
            dst_idx <= encoded_len(s.len()),
            dst@.len() == old(dst)@.len(),
            dst@.len() <= usize::MAX,
            dst@.len() >= encoded_len(s.len()),
            forall|j: int| 0 <= j < dst_idx ==> #[trigger] dst@[j] == out[j],
            forall|j: int| dst_idx <= j < dst@.len() ==> #[trigger] dst@[j] == old(dst)@[j],
        decreases src_len + 5 - src_idx,
    {
        let remain = src_len - src_idx;
        let b0: u8 = src[src_idx];
        let b1: u8 = if remain > 1 { src[src_idx + 1] } else { 0 };
        let b2: u8 = if remain > 2 { src[src_idx + 2] } else { 0 };
        let b3: u8 = if remain > 3 { src[src_idx + 3] } else { 0 };
        let b4: u8 = if remain > 4 { src[src_idx + 4] } else { 0 };
        let val: u64 = (b0 as u64) << 32 | (b1 as u64) << 24 | (b2 as u64) << 16 | (b3 as u64)
            << 8 | (b4 as u64);
        let count: usize = if remain >= 5 { 8 } else { (8 * remain + 4) / 5 };
        let ghost g = (src_idx / 5) as int;
        proof {
            assert(5 * g == src_idx);
            assert(val == group_bits(s, g));
            assert(dst_idx + 8 <= encoded_len(s.len()));
        }
        let ghost before = dst@;
        put_symbols(dst, dst_idx, val, count, encode_map);
        proof {
            assert forall|j: int| 0 <= j < dst_idx + 8 implies #[trigger] dst@[j] == out[j] by {
                if j >= dst_idx {
                    let k = j - dst_idx;
                    assert(j / 8 == g && j % 8 == k);
                    assert(dst@[dst_idx + k] == dst@[j]);
                    assert((k < count) == (j < data_symbols(s.len())));
                } else {
                    assert(dst@[j] == before[j]);
                }
            }
        }
        src_idx += 5;
        dst_idx += 8;
    }
    proof {
        assert(dst_idx == encoded_len(s.len()));
        assert(dst@ =~= out + old(dst)@.skip(encoded_len(s.len()) as int));
    }
}

/// Number of symbols of `g` before its first padding symbol.
pub open spec fn symbols_before_pad(g: Seq<u8>) -> nat
    decreases g.len(),
{
    if g.len() == 0 || g[0] == PAD {
        0
    } else {
        1 + symbols_before_pad(g.drop_first())
    }
}

/// The final group of eight symbols of `s`.
pub open spec fn last_group(s: Seq<u8>) -> Seq<u8> {
    s.subrange(s.len() - 8, s.len() as int)
}

/// Number of symbols of `s` that decoding reads: all but the padding of the
/// final group.
pub open spec fn used_len(s: Seq<u8>) -> int {
    s.len() - 8 + symbols_before_pad(last_group(s))
}

/// The final group is a run of 2, 4, 5, 7 or 8 symbols (what 1 to 5 bytes
/// encode to), then padding up to its end.
pub open spec fn valid_padding(s: Seq<u8>) -> bool {
    let d = symbols_before_pad(last_group(s));
    &&& (d == 2 || d == 4 || d == 5 || d == 7 || d == 8)
    &&& forall|k: int| d <= k < 8 ==> #[trigger] last_group(s)[k] == PAD
}

/// Symbol `j` of `s` is read by decoding and is not in the table `t`.
pub open spec fn invalid_at(s: Seq<u8>, t: Seq<u8>, j: int) -> bool {
    0 <= j < used_len(s) && t[s[j] as int] == INVALID
}

/// The first symbol that decoding reads and the table `t` rejects.
pub open spec fn first_invalid(s: Seq<u8>, t: Seq<u8>) -> int {
    choose|j: int| invalid_at(s, t, j) && forall|k: int| 0 <= k < j ==> !invalid_at(s, t, k)
}

/// The five-bit value of symbol `j` of `s` under table `t`; zero for the
/// symbols that decoding does not read.
pub open spec fn symbol_value(s: Seq<u8>, t: Seq<u8>, j: int) -> u64 {
    if j < used_len(s) {
        t[s[j] as int] as u64
    } else {
        0
    }
}

/// The 40 bits that the eight symbols of group `g` of `s` stand for.
pub open spec fn octet_bits(s: Seq<u8>, t: Seq<u8>, g: int) -> u64 {
    symbol_value(s, t, 8 * g) << 35 | symbol_value(s, t, 8 * g + 1) << 30 | symbol_value(
        s,
        t,
        8 * g + 2,
    ) << 25 | symbol_value(s, t, 8 * g + 3) << 20 | symbol_value(s, t, 8 * g + 4) << 15
        | symbol_value(s, t, 8 * g + 5) << 10 | symbol_value(s, t, 8 * g + 6) << 5 | symbol_value(
        s,
        t,
        8 * g + 7,
    )
}

/// Number of bytes that `s` decodes to: the bits of the symbols read, in
/// whole bytes.
pub open spec fn decoded_len(s: Seq<u8>) -> int {
    used_len(s) * 5 / 8
}

/// The bytes that `s` stands for under table `t`: byte `i` is byte `i % 5`
/// of the 40 bits of group `i / 5`.
pub open spec fn decoded_bytes(s: Seq<u8>, t: Seq<u8>) -> Seq<u8> {
    Seq::new(
        decoded_len(s) as nat,
        |i: int| ((octet_bits(s, t, i / 5) >> ((32 - 8 * (i % 5)) as u64)) & 0xFF) as u8,
    )
}

/// Base32 decoding of `s` with the decode table `t`.
pub open spec fn decode_spec(s: Seq<u8>, t: Seq<u8>) -> Result<Seq<u8>, Base32Error> {
    if s.len() % 8 != 0 {
        Err(Base32Error::InvalidLength)
    } else if s.len() == 0 {
        Ok(Seq::empty())
    } else if exists|j: int| invalid_at(s, t, j) {
        Err(Base32Error::InvalidByte(InvalidByteError { b: s[first_invalid(s, t)] }))
    } else if !valid_padding(s) {
        Err(Base32Error::InvalidPadding)
    } else {
        Ok(decoded_bytes(s, t))
    }
}

proof fn lemma_first_invalid(s: Seq<u8>, t: Seq<u8>, j: int)
    requires
        invalid_at(s, t, j),
        forall|k: int| 0 <= k < j ==> !invalid_at(s, t, k),
    ensures
        first_invalid(s, t) == j,
{
    let c = first_invalid(s, t);
    assert(invalid_at(s, t, c) && forall|k: int| 0 <= k < c ==> !invalid_at(s, t, k));
    if c < j {
        assert(!invalid_at(s, t, c));
    } else if c > j {
        assert(!invalid_at(s, t, j));
    }
}

proof fn lemma_symbols_before_pad(g: Seq<u8>, d: int)
    requires
        0 <= d <= g.len(),
        forall|k: int| 0 <= k < d ==> g[k] != PAD,
        d == g.len() || g[d] == PAD,
    ensures
        symbols_before_pad(g) == d,
    decreases d,
{
    if d > 0 {
        let rest = g.drop_first();
        assert forall|k: int| 0 <= k < d - 1 implies rest[k] != PAD by {
            assert(rest[k] == g[k + 1]);
        }
        lemma_symbols_before_pad(rest, d - 1);
    }
}

fn from_char(b: u8, decode_map: &[u8]) -> (r: Result<u8, InvalidByteError>)
    requires
        decode_map@.len() >= 256,
    ensures
        decode_map@[b as int] == INVALID ==> r == Err::<u8, InvalidByteError>(
            InvalidByteError { b },
        ),
        decode_map@[b as int] != INVALID ==> r == Ok::<u8, InvalidByteError>(
            decode_map@[b as int],
        ),
{
    let out = decode_map[b as usize];
    if out == INVALID {
        return Err(InvalidByteError::new(b));
    }
    Ok(out)
}

/// Reads the eight symbols of the group at `start` and returns the 40 bits
/// they stand for, or the first of them that is read and rejected.
fn read_group(src: &[u8], start: usize, used: usize, decode_map: &[u8]) -> (r: Result<
    u64,
    InvalidByteError,
>)
    requires
        start % 8 == 0,
        start + 8 <= src@.len(),
        src@.len() % 8 == 0,
        used == used_len(src@),
        decode_map@.len() >= 256,
    ensures
        match r {
            Ok(v) => v == octet_bits(src@, decode_map@, start as int / 8) && forall|j: int|
                start <= j < start + 8 ==> !invalid_at(src@, decode_map@, j),
            Err(e) => exists|j: int|
                start <= j < start + 8 && invalid_at(src@, decode_map@, j) && (forall|k: int|
                    start <= k < j ==> !invalid_at(src@, decode_map@, k)) && e == (
                InvalidByteError { b: src@[j] }),
        },
{
    let ghost s = src@;
    let ghost t = decode_map@;
    assert(s.len() == src.len());
    let mut v = [0u64; 8];
    let mut k: usize = 0;
    while k < 8
        invariant
            s == src@,
            t == decode_map@,
            t.len() >= 256,
            start + 8 <= s.len() <= usize::MAX,
            used == used_len(s),
            k <= 8,
            forall|m: int| start <= m < start + k ==> !invalid_at(s, t, m),
            forall|m: int| 0 <= m < k ==> v@[m] == symbol_value(s, t, start + m),
        decreases 8 - k,
    {
        let j = start + k;
        if j < used {
            match from_char(src[j], decode_map) {
                Ok(x) => {
                    v[k] = x as u64;
                },
                Err(e) => {
                    proof {
                        assert(invalid_at(s, t, j as int));
                        assert(forall|m: int| start <= m < j ==> !invalid_at(s, t, m));
                    }
                    return Err(e);
                },
            }
        } else {
            v[k] = 0;
        }
        k += 1;
    }
    let val: u64 = v[0] << 35 | v[1] << 30 | v[2] << 25 | v[3] << 20 | v[4] << 15 | v[5] << 10
        | v[6] << 5 | v[7];
    proof {
        let g = start as int / 8;
        assert(8 * g == start);
        assert(val == octet_bits(s, t, g));
    }
    Ok(val)
}

/// Writes the first `count` bytes of the 40 bits `val` at `at`.
fn put_bytes(dst: &mut [u8], at: usize, val: u64, count: usize)
    requires
        count <= 5,
        at + count <= old(dst)@.len() <= usize::MAX,
    ensures
        final(dst)@.len() == old(dst)@.len(),
        forall|k: int|
            0 <= k < count ==> #[trigger] final(dst)@[at + k] == ((val >> ((32 - 8 * k) as u64))
                & 0xFF) as u8,
        forall|i: int|
            0 <= i < final(dst)@.len() && !(at <= i < at + count) ==> #[trigger] final(dst)@[i]
                == old(dst)@[i],
{
    let mut k: usize = 0;
    while k < count
        invariant
            count <= 5,
            at + count <= dst@.len() <= usize::MAX,
            dst@.len() == old(dst)@.len(),
            k <= count,
            forall|m: int|
                0 <= m < k ==> #[trigger] dst@[at + m] == ((val >> ((32 - 8 * m) as u64)) & 0xFF) as u8,
            forall|i: int|
                0 <= i < dst@.len() && !(at <= i < at + k) ==> #[trigger] dst@[i] == old(dst)@[i],
        decreases count - k,
    {
        dst[at + k] = ((val >> ((32 - 8 * k) as u64)) & 0xFF) as u8;
        k += 1;
    }
}

/// Decodes `src` with the decode table `decode_map` into the front of `dst`
/// and returns the number of bytes written.
///
/// The length must be a multiple of eight. The first symbol read that is not
/// in the table is reported; after that, the padding of the final group is
/// checked.
#[verifier::rlimit(40)]
pub fn decode(dst: &mut [u8], src: &[u8], decode_map: &[u8]) -> (r: Result<usize, Base32Error>)
    requires
        decode_map@.len() >= 256,
        old(dst)@.len() >= max_decoded_len(src@.len()),
    ensures
        final(dst)@.len() == old(dst)@.len(),
        match decode_spec(src@, decode_map@) {
            Ok(out) => r == Ok::<usize, Base32Error>(out.len() as usize) && final(dst)@ == out
                + old(dst)@.skip(out.len() as int),
            Err(e) => r == Err::<usize, Base32Error>(e),
        },
{
    let ghost s = src@;
    let ghost t = decode_map@;
    let src_len = src.len();
    if src_len % 8 != 0 {
        return Err(Base32Error::InvalidLength);
    }
    if src_len == 0 {
        proof {
            assert(dst@ =~= Seq::<u8>::empty() + old(dst)@.skip(0));
        }
        return Ok(0);
    }
    let last = src_len - 8;
    let mut d: usize = 0;
    while d < 8 && src[last + d] != PAD_CHAR
        invariant
            s == src@,
            src_len == s.len(),
            last + 8 == src_len,
            d <= 8,
            forall|k: int| 0 <= k < d ==> last_group(s)[k] != PAD,
        decreases 8 - d,
    {
        d += 1;
    }
    proof {
        lemma_symbols_before_pad(last_group(s), d as int);
    }
    let used = last + d;
    let ghost out = decoded_bytes(s, t);
    assert(dst@.len() == dst.len());
    let mut src_idx: usize = 0;
    let mut dst_idx: usize = 0;
    while src_idx < last
        invariant
            s == src@,
            t == decode_map@,
            t.len() >= 256,
            src_len == s.len(),
            src_len % 8 == 0,
            last + 8 == src_len,
            used == used_len(s),
            d == symbols_before_pad(last_group(s)),
            out == decoded_bytes(s, t),
            src_idx % 8 == 0,
            src_idx <= last,
            dst_idx == src_idx / 8 * 5,
            dst@.len() == old(dst)@.len(),
            dst@.len() <= usize::MAX,
            dst@.len() >= src_len / 8 * 5,
            forall|k: int| 0 <= k < src_idx ==> !invalid_at(s, t, k),
            forall|i: int| 0 <= i < dst_idx ==> #[trigger] dst@[i] == out[i],
            forall|i: int| dst_idx <= i < dst@.len() ==> #[trigger] dst@[i] == old(dst)@[i],
        decreases last - src_idx,
    {
        let val = match read_group(src, src_idx, used, decode_map) {
            Ok(v) => v,
            Err(e) => {
                proof {
                    let j = choose|j: int|
                        src_idx <= j < src_idx + 8 && invalid_at(s, t, j) && (forall|k: int|
                            src_idx <= k < j ==> !invalid_at(s, t, k)) && e == (InvalidByteError {
                            b: s[j],
                        });
                    lemma_first_invalid(s, t, j);
                }
                return Err(Base32Error::InvalidByte(e));
            },
        };
        let ghost g = (src_idx / 8) as int;
        proof {
            assert(8 * g == src_idx);
            assert(dst_idx + 5 <= src_len / 8 * 5);
            assert(decoded_len(s) >= dst_idx + 5);
        }
        let ghost before = dst@;
        put_bytes(dst, dst_idx, val, 5);
        proof {
            assert forall|i: int| 0 <= i < dst_idx + 5 implies #[trigger] dst@[i] == out[i] by {
                if i >= dst_idx {
                    let k = i - dst_idx;
                    assert(i / 5 == g && i % 5 == k);
                    assert(dst@[dst_idx + k] == dst@[i]);
                } else {
                    assert(dst@[i] == before[i]);
                }
            }
        }
        src_idx += 8;
        dst_idx += 5;
    }
    let val = match read_group(src, src_idx, used, decode_map) {
        Ok(v) => v,
        Err(e) => {
            proof {
                let j = choose|j: int|
                    src_idx <= j < src_idx + 8 && invalid_at(s, t, j) && (forall|k: int|
                        src_idx <= k < j ==> !invalid_at(s, t, k)) && e == (InvalidByteError {
                        b: s[j],
                    });
                lemma_first_invalid(s, t, j);
            }
            return Err(Base32Error::InvalidByte(e));
        },
    };
    proof {
        assert forall|j: int| !invalid_at(s, t, j) by {
            if 0 <= j < used_len(s) {
                assert(j < src_idx + 8);
            }
        }
    }
    if !(d == 2 || d == 4 || d == 5 || d == 7 || d == 8) {
        return Err(Base32Error::InvalidPadding);
    }
    let mut k: usize = d;
    while k < 8
        invariant
            s == src@,
            t == decode_map@,
            src_len == s.len(),
            src_len % 8 == 0,
            src_len > 0,
            last + 8 == src_len,
            dst@.len() == old(dst)@.len(),
            d == symbols_before_pad(last_group(s)),
            forall|j: int| !invalid_at(s, t, j),
            d <= k <= 8,
            forall|m: int| d <= m < k ==> #[trigger] last_group(s)[m] == PAD,
        decreases 8 - k,
    {
        if src[last + k] != PAD_CHAR {
            proof {
                assert(last_group(s)[k as int] != PAD);
            }
            return Err(Base32Error::InvalidPadding);
        }
        k += 1;
    }
    let count = d * 5 / 8;
    let ghost g = (src_idx / 8) as int;
    proof {
        assert(8 * g == src_idx);
        assert(decoded_len(s) == dst_idx + count);
    }
    let ghost before = dst@;
    put_bytes(dst, dst_idx, val, count);
    let written = dst_idx + count;
    proof {
        assert forall|i: int| 0 <= i < written implies #[trigger] dst@[i] == out[i] by {
            if i >= dst_idx {
                let k = i - dst_idx;
                assert(i / 5 == g && i % 5 == k);
                assert(dst@[dst_idx + k] == dst@[i]);
            } else {
                assert(dst@[i] == before[i]);
            }
        }
        assert(dst@ =~= out + old(dst)@.skip(out.len() as int));
    }
    Ok(written)
}

/// A symbol past the data symbols covers no input bit, so its five bits are
/// zero.
proof fn lemma_padding_quintet_zero(s: Seq<u8>, j: int)
    requires
        data_symbols(s.len()) <= j < encoded_len(s.len()),
    ensures
        quintet(group_bits(s, j / 8), j % 8) == 0,
{
    let m = s.len() as int;
    let g = j / 8;
    let k = j % 8;
    assert(5 * j >= 8 * m);
    assert(j == 8 * g + k);
    lemma_group_round_trip(
        byte_or_zero(s, 5 * g),
        byte_or_zero(s, 5 * g + 1),
        byte_or_zero(s, 5 * g + 2),
        byte_or_zero(s, 5 * g + 3),
        byte_or_zero(s, 5 * g + 4),
    );
    if k <= 1 {
        assert(m <= 5 * g);
    } else if k <= 3 {
        assert(m <= 5 * g + 1);
    } else if k == 4 {
        assert(m <= 5 * g + 2);
    } else if k <= 6 {
        assert(m <= 5 * g + 3);
    } else {
        assert(m <= 5 * g + 4);
    }
}

/// A data symbol of the encoding is the alphabet entry of its five bits,
/// which the decode table maps back to those bits.
proof fn lemma_data_symbol(s: Seq<u8>, a: Seq<u8>, j: int)
    requires
        is_alphabet(a, 32),
        0 <= j < data_symbols(s.len()),
        j < encoded_len(s.len()),
    ensures
        ({
            let x = quintet(group_bits(s, j / 8), j % 8);
            &&& x < 32
            &&& encode_spec(s, a)[j] == a[x as int]
            &&& encode_spec(s, a)[j] != PAD
            &&& inverse_table(a)[encode_spec(s, a)[j] as int] == x
        }),
{
    let x = quintet(group_bits(s, j / 8), j % 8);
    let g = j / 8;
    lemma_group_round_trip(
        byte_or_zero(s, 5 * g),
        byte_or_zero(s, 5 * g + 1),
        byte_or_zero(s, 5 * g + 2),
        byte_or_zero(s, 5 * g + 3),
        byte_or_zero(s, 5 * g + 4),
    );
    assert(0 <= j % 8 < 8);
    assert(x < 32);
    assert(a[x as int] != PAD);
    lemma_inverse_table(a);
}

/// Decoding what was encoded gives back the input, for every input and
/// every alphabet, with the alphabet's decode table.
pub proof fn lemma_round_trip(s: Seq<u8>, a: Seq<u8>)
    requires
        is_alphabet(a, 32),
    ensures
        decode_spec(encode_spec(s, a), inverse_table(a)) == Ok::<Seq<u8>, Base32Error>(s),
{
    let e = encode_spec(s, a);
    let t = inverse_table(a);
    let m = s.len() as int;
    let n = e.len() as int;
    let dd = data_symbols(s.len()) as int;
    lemma_inverse_table(a);
    assert(n == encoded_len(s.len()));
    if m == 0 {
        assert(e.len() == 0);
        assert(s =~= Seq::<u8>::empty());
        return;
    }
    assert(n >= 8 && n % 8 == 0);
    let r = m % 5;
    if r == 0 {
        assert(dd == n);
    } else if r == 1 {
        assert(dd == n - 6);
    } else if r == 2 {
        assert(dd == n - 4);
    } else if r == 3 {
        assert(dd == n - 3);
    } else {
        assert(dd == n - 1);
    }
    let d = dd - (n - 8);
    let lg = last_group(e);
    assert forall|k: int| 0 <= k < d implies lg[k] != PAD by {
        lemma_data_symbol(s, a, n - 8 + k);
    }
    assert forall|k: int| d <= k < 8 implies #[trigger] lg[k] == PAD by {
        assert(lg[k] == e[n - 8 + k]);
    }
    if d < 8 {
        assert(lg[d] == PAD);
    }
    lemma_symbols_before_pad(lg, d);
    assert(used_len(e) == dd);
    assert(valid_padding(e));
    assert forall|j: int| !invalid_at(e, t, j) by {
        if 0 <= j < dd {
            lemma_data_symbol(s, a, j);
        }
    }
    assert(decoded_len(e) == m) by {
        if r == 0 {
            assert(dd == 8 * (m / 5));
        } else if r == 1 {
            assert(dd == 8 * (m / 5) + 2);
        } else if r == 2 {
            assert(dd == 8 * (m / 5) + 4);
        } else if r == 3 {
            assert(dd == 8 * (m / 5) + 5);
        } else {
            assert(dd == 8 * (m / 5) + 7);
        }
    }
    assert forall|j: int| 0 <= j < n implies symbol_value(e, t, j) == quintet(
        group_bits(s, j / 8),
        j % 8,
    ) by {
        if j >= dd {
            lemma_padding_quintet_zero(s, j);
        } else {
            lemma_data_symbol(s, a, j);
        }
    }
    let out = decoded_bytes(e, t);
    assert forall|i: int| 0 <= i < m implies out[i] == s[i] by {
        let g = i / 5;
        let v = group_bits(s, g);
        assert(8 * g + 7 < n);
        assert(symbol_value(e, t, 8 * g) == quintet(v, 0));
        assert(symbol_value(e, t, 8 * g + 1) == quintet(v, 1));
        assert(symbol_value(e, t, 8 * g + 2) == quintet(v, 2));
        assert(symbol_value(e, t, 8 * g + 3) == quintet(v, 3));
        assert(symbol_value(e, t, 8 * g + 4) == quintet(v, 4));
        assert(symbol_value(e, t, 8 * g + 5) == quintet(v, 5));
        assert(symbol_value(e, t, 8 * g + 6) == quintet(v, 6));
        assert(symbol_value(e, t, 8 * g + 7) == quintet(v, 7));
        lemma_group_round_trip(
            byte_or_zero(s, 5 * g),
            byte_or_zero(s, 5 * g + 1),
            byte_or_zero(s, 5 * g + 2),
            byte_or_zero(s, 5 * g + 3),
            byte_or_zero(s, 5 * g + 4),
        );
        assert(i == 5 * g + i % 5);
    }
    assert(out =~= s);
}

/// Length laws: decoding room for an encoding is at least the input length,
/// and a longer input never has a shorter encoding.
pub proof fn lemma_len_laws(n: nat, m: nat)
    ensures
        max_decoded_len(encoded_len(n)) >= n,
        n <= m ==> encoded_len(n) <= encoded_len(m),
{
    assert(encoded_len(n) / 8 == (n + 4) / 5);
    if n <= m {
        assert((n + 4) / 5 <= (m + 4) / 5);
    }
}

/// Length of the base32 encoding of `n` bytes.
pub fn encode_len(n: usize) -> (r: usize)
    requires
        encoded_len(n as nat) <= usize::MAX,
    ensures
        r == encoded_len(n as nat),
{
    (n + 4) / 5 * 8
}

/// Room needed to decode `n` symbols: five bytes for each group of eight.
pub fn decode_len(n: usize) -> (r: usize)
    ensures
        r == max_decoded_len(n as nat),
{
    n / 8 * 5
}

/// Builds the decode table of `encode_map`.
pub fn decode_map(encode_map: &[u8]) -> (r: Vec<u8>)
    requires
        encode_map@.len() <= 256,
    ensures
        r@ == inverse_table(encode_map@),
{
    invert_alphabet(encode_map)
}

/// The shipped alphabets are alphabets, and the shipped decode tables are
/// their decode tables.
pub proof fn lemma_shipped_tables()
    ensures
        is_alphabet(ENCODE_STD@, 32),
        is_alphabet(ENCODE_HEX@, 32),
        DECODE_STD_MAP@ == inverse_table(ENCODE_STD@),
        DECODE_HEX_MAP@ == inverse_table(ENCODE_HEX@),
{
    assert(is_alphabet(ENCODE_STD@, 32));
    assert(is_alphabet(ENCODE_HEX@, 32));
    assert(forall|i: int| 0 <= i < 32 ==> DECODE_STD_MAP@[#[trigger] ENCODE_STD@[i] as int] == i);
    assert(forall|c: int|
        0 <= c < 256 && #[trigger] DECODE_STD_MAP@[c] != INVALID ==> DECODE_STD_MAP@[c] < 32
            && ENCODE_STD@[DECODE_STD_MAP@[c] as int] == c);
    lemma_table_matches(ENCODE_STD@, DECODE_STD_MAP@);
    assert(forall|i: int| 0 <= i < 32 ==> DECODE_HEX_MAP@[#[trigger] ENCODE_HEX@[i] as int] == i);
    assert(forall|c: int|
        0 <= c < 256 && #[trigger] DECODE_HEX_MAP@[c] != INVALID ==> DECODE_HEX_MAP@[c] < 32
            && ENCODE_HEX@[DECODE_HEX_MAP@[c] as int] == c);
    lemma_table_matches(ENCODE_HEX@, DECODE_HEX_MAP@);
}

/// With either shipped alphabet and its shipped decode table, decoding what
/// was encoded gives back the input.
pub proof fn lemma_shipped_round_trip(s: Seq<u8>)
    ensures
        decode_spec(encode_spec(s, ENCODE_STD@), DECODE_STD_MAP@) == Ok::<Seq<u8>, Base32Error>(s),
        decode_spec(encode_spec(s, ENCODE_HEX@), DECODE_HEX_MAP@) == Ok::<Seq<u8>, Base32Error>(s),
{
    lemma_shipped_tables();
    lemma_round_trip(s, ENCODE_STD@);
    lemma_round_trip(s, ENCODE_HEX@);
}

} // verus!
