//! Base64 (RFC 4648): three bytes become four symbols of a 64-symbol
//! alphabet, and a short final group is filled up with `=`.

use crate::symbols::{
    INVALID, PAD, all_ascii, ascii_chars, ascii_string, byte_message, decimal, inverse_table,
    invert_alphabet, is_alphabet, lemma_inverse_table, lemma_table_matches,
};
use vstd::prelude::*;
use vstd::string::{StringExecFns, StringSliceAdditionalSpecFns};

verus! {

/// The standard alphabet.
pub const ENCODE_STD: [u8; 64] = [
    0x41, 0x42, 0x43, 0x44, 0x45, 0x46, 0x47, 0x48, 0x49, 0x4a, 0x4b, 0x4c, 0x4d, 0x4e, 0x4f, 0x50,
    0x51, 0x52, 0x53, 0x54, 0x55, 0x56, 0x57, 0x58, 0x59, 0x5a, 0x61, 0x62, 0x63, 0x64, 0x65, 0x66,
    0x67, 0x68, 0x69, 0x6a, 0x6b, 0x6c, 0x6d, 0x6e, 0x6f, 0x70, 0x71, 0x72, 0x73, 0x74, 0x75, 0x76,
    0x77, 0x78, 0x79, 0x7a, 0x30, 0x31, 0x32, 0x33, 0x34, 0x35, 0x36, 0x37, 0x38, 0x39, 0x2b, 0x2f,
];

/// The URL and filename safe alphabet.
pub const ENCODE_URL: [u8; 64] = [
    0x41, 0x42, 0x43, 0x44, 0x45, 0x46, 0x47, 0x48, 0x49, 0x4a, 0x4b, 0x4c, 0x4d, 0x4e, 0x4f, 0x50,
    0x51, 0x52, 0x53, 0x54, 0x55, 0x56, 0x57, 0x58, 0x59, 0x5a, 0x61, 0x62, 0x63, 0x64, 0x65, 0x66,
    0x67, 0x68, 0x69, 0x6a, 0x6b, 0x6c, 0x6d, 0x6e, 0x6f, 0x70, 0x71, 0x72, 0x73, 0x74, 0x75, 0x76,
    0x77, 0x78, 0x79, 0x7a, 0x30, 0x31, 0x32, 0x33, 0x34, 0x35, 0x36, 0x37, 0x38, 0x39, 0x2d, 0x5f,
];

/// Decode table of the standard alphabet.
pub const DECODE_STD_MAP: [u8; 256] = [
    0xff, 0xff, 0xff, 0xff, 0xff, 0xff, 0xff, 0xff, 0xff, 0xff, 0xff, 0xff, 0xff, 0xff, 0xff, 0xff,
    0xff, 0xff, 0xff, 0xff, 0xff, 0xff, 0xff, 0xff, 0xff, 0xff, 0xff, 0xff, 0xff, 0xff, 0xff, 0xff,
    0xff, 0xff, 0xff, 0xff, 0xff, 0xff, 0xff, 0xff, 0xff, 0xff, 0xff, 0x3e, 0xff, 0xff, 0xff, 0x3f,
    0x34, 0x35, 0x36, 0x37, 0x38, 0x39, 0x3a, 0x3b, 0x3c, 0x3d, 0xff, 0xff, 0xff, 0xff, 0xff, 0xff,
    0xff, 0x00, 0x01, 0x02, 0x03, 0x04, 0x05, 0x06, 0x07, 0x08, 0x09, 0x0a, 0x0b, 0x0c, 0x0d, 0x0e,
    0x0f, 0x10, 0x11, 0x12, 0x13, 0x14, 0x15, 0x16, 0x17, 0x18, 0x19, 0xff, 0xff, 0xff, 0xff, 0xff,
    0xff, 0x1a, 0x1b, 0x1c, 0x1d, 0x1e, 0x1f, 0x20, 0x21, 0x22, 0x23, 0x24, 0x25, 0x26, 0x27, 0x28,
    0x29, 0x2a, 0x2b, 0x2c, 0x2d, 0x2e, 0x2f, 0x30, 0x31, 0x32, 0x33, 0xff, 0xff, 0xff, 0xff, 0xff,
    0xff, 0xff, 0xff, 0xff, 0xff, 0xff, 0xff, 0xff, 0xff, 0xff, 0xff, 0xff, 0xff, 0xff, 0xff, 0xff,
    0xff, 0xff, 0xff, 0xff, 0xff, 0xff, 0xff, 0xff, 0xff, 0xff, 0xff, 0xff, 0xff, 0xff, 0xff, 0xff,
    0xff, 0xff, 0xff, 0xff, 0xff, 0xff, 0xff, 0xff, 0xff, 0xff, 0xff, 0xff, 0xff, 0xff, 0xff, 0xff,
    0xff, 0xff, 0xff, 0xff, 0xff, 0xff, 0xff, 0xff, 0xff, 0xff, 0xff, 0xff, 0xff, 0xff, 0xff, 0xff,
    0xff, 0xff, 0xff, 0xff, 0xff, 0xff, 0xff, 0xff, 0xff, 0xff, 0xff, 0xff, 0xff, 0xff, 0xff, 0xff,
    0xff, 0xff, 0xff, 0xff, 0xff, 0xff, 0xff, 0xff, 0xff, 0xff, 0xff, 0xff, 0xff, 0xff, 0xff, 0xff,
    0xff, 0xff, 0xff, 0xff, 0xff, 0xff, 0xff, 0xff, 0xff, 0xff, 0xff, 0xff, 0xff, 0xff, 0xff, 0xff,
    0xff, 0xff, 0xff, 0xff, 0xff, 0xff, 0xff, 0xff, 0xff, 0xff, 0xff, 0xff, 0xff, 0xff, 0xff, 0xff,
];

/// Decode table of the URL and filename safe alphabet.
pub const DECODE_URL_MAP: [u8; 256] = [
    0xff, 0xff, 0xff, 0xff, 0xff, 0xff, 0xff, 0xff, 0xff, 0xff, 0xff, 0xff, 0xff, 0xff, 0xff, 0xff,
    0xff, 0xff, 0xff, 0xff, 0xff, 0xff, 0xff, 0xff, 0xff, 0xff, 0xff, 0xff, 0xff, 0xff, 0xff, 0xff,
    0xff, 0xff, 0xff, 0xff, 0xff, 0xff, 0xff, 0xff, 0xff, 0xff, 0xff, 0xff, 0xff, 0x3e, 0xff, 0xff,
    0x34, 0x35, 0x36, 0x37, 0x38, 0x39, 0x3a, 0x3b, 0x3c, 0x3d, 0xff, 0xff, 0xff, 0xff, 0xff, 0xff,
    0xff, 0x00, 0x01, 0x02, 0x03, 0x04, 0x05, 0x06, 0x07, 0x08, 0x09, 0x0a, 0x0b, 0x0c, 0x0d, 0x0e,
    0x0f, 0x10, 0x11, 0x12, 0x13, 0x14, 0x15, 0x16, 0x17, 0x18, 0x19, 0xff, 0xff, 0xff, 0xff, 0x3f,
    0xff, 0x1a, 0x1b, 0x1c, 0x1d, 0x1e, 0x1f, 0x20, 0x21, 0x22, 0x23, 0x24, 0x25, 0x26, 0x27, 0x28,
    0x29, 0x2a, 0x2b, 0x2c, 0x2d, 0x2e, 0x2f, 0x30, 0x31, 0x32, 0x33, 0xff, 0xff, 0xff, 0xff, 0xff,
    0xff, 0xff, 0xff, 0xff, 0xff, 0xff, 0xff, 0xff, 0xff, 0xff, 0xff, 0xff, 0xff, 0xff, 0xff, 0xff,
    0xff, 0xff, 0xff, 0xff, 0xff, 0xff, 0xff, 0xff, 0xff, 0xff, 0xff, 0xff, 0xff, 0xff, 0xff, 0xff,
    0xff, 0xff, 0xff, 0xff, 0xff, 0xff, 0xff, 0xff, 0xff, 0xff, 0xff, 0xff, 0xff, 0xff, 0xff, 0xff,
    0xff, 0xff, 0xff, 0xff, 0xff, 0xff, 0xff, 0xff, 0xff, 0xff, 0xff, 0xff, 0xff, 0xff, 0xff, 0xff,
    0xff, 0xff, 0xff, 0xff, 0xff, 0xff, 0xff, 0xff, 0xff, 0xff, 0xff, 0xff, 0xff, 0xff, 0xff, 0xff,
    0xff, 0xff, 0xff, 0xff, 0xff, 0xff, 0xff, 0xff, 0xff, 0xff, 0xff, 0xff, 0xff, 0xff, 0xff, 0xff,
    0xff, 0xff, 0xff, 0xff, 0xff, 0xff, 0xff, 0xff, 0xff, 0xff, 0xff, 0xff, 0xff, 0xff, 0xff, 0xff,
    0xff, 0xff, 0xff, 0xff, 0xff, 0xff, 0xff, 0xff, 0xff, 0xff, 0xff, 0xff, 0xff, 0xff, 0xff, 0xff,
];

/// The padding symbol.
pub const PAD_CHAR: u8 = 0x3d;

/// Errors of base64 decoding.
#[derive(Debug, PartialEq, Eq, Structural)]
pub enum Base64Error {
    /// A consumed byte is not a symbol of the alphabet.
    InvalidByte(InvalidByteError),
    /// The input is empty or its length is not a multiple of four.
    InvalidLength,
}

/// A byte that is not a symbol of the alphabet in use.
#[derive(Debug, PartialEq, Eq, Structural)]
pub struct InvalidByteError {
    /// The offending byte.
    pub b: u8,
}

impl InvalidByteError {
    pub fn new(b: u8) -> (r: Self)
        ensures
            r == (InvalidByteError { b }),
    {
        Self { b }
    }

    /// The text that reports this error.
    pub fn message(&self) -> (r: String)
        ensures
            r@ == "encoding/base64: invalid byte: "@ + decimal(self.b as nat),
    {
        byte_message("encoding/base64: invalid byte: ", self.b)
    }
}

impl Base64Error {
    /// The text that reports this error.
    pub fn message(&self) -> (r: String)
        ensures
            r@ == match self {
                Base64Error::InvalidByte(e) => "encoding/base64: invalid byte: "@ + decimal(e.b as nat),
                Base64Error::InvalidLength => "encoding/base64: invalid input length"@,
            },
    {
        match self {
            Base64Error::InvalidByte(e) => e.message(),
            Base64Error::InvalidLength => String::from_str("encoding/base64: invalid input length"),
        }
    }
}

impl From<InvalidByteError> for Base64Error {
    fn from(e: InvalidByteError) -> (r: Self)
        ensures
            r == Base64Error::InvalidByte(e),
    {
        Self::InvalidByte(e)
    }
}

impl vstd::std_specs::convert::FromSpecImpl<InvalidByteError> for Base64Error {
    open spec fn obeys_from_spec() -> bool {
        true
    }

    open spec fn from_spec(e: InvalidByteError) -> Self {
        Base64Error::InvalidByte(e)
    }
}

/// Length of the encoding of `n` bytes: one group of four symbols for every
/// three bytes or part of three.
pub open spec fn encoded_len(n: nat) -> nat {
    (n + 2) / 3 * 4
}

/// Number of symbols that carry data in the encoding of `n` bytes: its
/// `8 * n` bits in whole six-bit symbols, rounded up.
pub open spec fn data_symbols(n: nat) -> nat {
    (8 * n + 5) / 6
}

/// Byte `i` of `s`, or zero past its end.
pub open spec fn byte_or_zero(s: Seq<u8>, i: int) -> u8 {
    if 0 <= i < s.len() {
        s[i]
    } else {
        0
    }
}

/// The 24 bits of group `g` of `s`: bytes `3g`, `3g+1` and `3g+2`, most
/// significant first, missing bytes taken as zero.
pub open spec fn group_bits(s: Seq<u8>, g: int) -> u32 {
    (byte_or_zero(s, 3 * g) as u32) << 16 | (byte_or_zero(s, 3 * g + 1) as u32) << 8
        | (byte_or_zero(s, 3 * g + 2) as u32)
}

/// Six-bit field `k` (0 to 3) of a 24-bit group, from the most significant
/// end.
pub open spec fn sextet(v: u32, k: int) -> u32 {
    (v >> ((18 - 6 * k) as u32)) & 0x3F
}

/// The base64 encoding of `s` with alphabet `a`: symbol `j` is the alphabet
/// entry of the `j`-th six bits of `s` while those carry data, and padding
/// after that.
pub open spec fn encode_spec(s: Seq<u8>, a: Seq<u8>) -> Seq<u8> {
    Seq::new(
        encoded_len(s.len()),
        |j: int|
            if j < data_symbols(s.len()) {
                a[sextet(group_bits(s, j / 4), j % 4) as int]
            } else {
                PAD
            },
    )
}

proof fn lemma_sextets(b0: u8, b1: u8, b2: u8)
    by (bit_vector)
    ensures
        ({
            let v = (b0 as u32) << 16 | (b1 as u32) << 8 | (b2 as u32);
            &&& (v >> 18) & 0x3F == (v >> ((18 - 6 * 0) as u32)) & 0x3F
            &&& (v >> 12) & 0x3F == (v >> ((18 - 6 * 1) as u32)) & 0x3F
            &&& (v >> 6) & 0x3F == (v >> ((18 - 6 * 2) as u32)) & 0x3F
            &&& v & 0x3F == (v >> ((18 - 6 * 3) as u32)) & 0x3F
            &&& (v >> 18) & 0x3F < 64
            &&& (v >> 12) & 0x3F < 64
            &&& (v >> 6) & 0x3F < 64
            &&& v & 0x3F < 64
        }),
{
}

/// Encodes `src` into the first `encode_len(src.len())` bytes of `dst` with
/// the alphabet `encode_map`.
pub fn encode(dst: &mut [u8], src: &[u8], encode_map: &[u8])
    requires
        encode_map@.len() >= 64,
        old(dst)@.len() >= encoded_len(src@.len()),
    ensures
        final(dst)@ == encode_spec(src@, encode_map@) + old(dst)@.skip(
            encoded_len(src@.len()) as int,
        ),
{
    let src_len = src.len();
    let ghost s = src@;
    let ghost a = encode_map@;
    let ghost out = encode_spec(s, a);
    let mut src_idx: usize = 0;
    let mut dst_idx: usize = 0;
    let n = (src_len / 3) * 3;
    while src_idx < n
        invariant
            src_len == s.len(),
            n == (src_len / 3) * 3,
            a == encode_map@,
            a.len() >= 64,
            out == encode_spec(s, a),
            s == src@,
            src_idx % 3 == 0,
            src_idx <= n,
            dst_idx == src_idx / 3 * 4,
            dst@.len() == old(dst)@.len(),
            dst@.len() >= encoded_len(s.len()),
            forall|j: int| 0 <= j < dst_idx ==> #[trigger] dst@[j] == out[j],
            forall|j: int| dst_idx <= j < dst@.len() ==> #[trigger] dst@[j] == old(dst)@[j],
        decreases n - src_idx,
    {
        let val: u32 = (src[src_idx] as u32) << 16 | (src[src_idx + 1] as u32) << 8
            | (src[src_idx + 2] as u32);
        let ghost g = (src_idx / 3) as int;
        proof {
            lemma_sextets(src[src_idx as int], src[src_idx + 1], src[src_idx + 2]);
            assert(val == group_bits(s, g));
        }
        dst[dst_idx] = encode_map[((val >> 18) & 0x3F) as usize];
        dst[dst_idx + 1] = encode_map[((val >> 12) & 0x3F) as usize];
        dst[dst_idx + 2] = encode_map[((val >> 6) & 0x3F) as usize];
        dst[dst_idx + 3] = encode_map[(val & 0x3F) as usize];
        proof {
            assert forall|j: int| 0 <= j < dst_idx + 4 implies #[trigger] dst@[j] == out[j] by {
                if j >= dst_idx {
                    assert(j / 4 == g);
                    assert(j < data_symbols(s.len()));
                }
            }
        }
        src_idx += 3;
        dst_idx += 4;
    }
    let remain = src_len - src_idx;
    if remain > 0 {
        let b1: u8 = if remain == 2 { src[src_idx + 1] } else { 0 };
        let b2: u8 = 0;
        let val: u32 = (src[src_idx] as u32) << 16 | (b1 as u32) << 8 | (b2 as u32);
        let ghost g = (src_idx / 3) as int;
        proof {
            lemma_sextets(src[src_idx as int], b1, b2);
            assert(3 * g == src_idx);
            assert(byte_or_zero(s, 3 * g + 1) == b1);
            assert(byte_or_zero(s, 3 * g + 2) == 0);
            assert(val == group_bits(s, g));
        }
        dst[dst_idx] = encode_map[((val >> 18) & 0x3F) as usize];
        dst[dst_idx + 1] = encode_map[((val >> 12) & 0x3F) as usize];
        dst[dst_idx + 2] = if remain == 2 {
            encode_map[((val >> 6) & 0x3F) as usize]
        } else {
            PAD_CHAR
        };
        dst[dst_idx + 3] = PAD_CHAR;
        proof {
            assert forall|j: int| 0 <= j < dst_idx + 4 implies #[trigger] dst@[j] == out[j] by {
                if j >= dst_idx {
                    assert(j / 4 == g);
                }
            }
        }
        dst_idx += 4;
    }
    proof {
        assert(dst_idx == encoded_len(s.len()));
        assert(dst@ =~= out + old(dst)@.skip(encoded_len(s.len()) as int));
    }
}

/// Number of padding symbols at the end of `s`, which holds at least two
/// bytes: two where the second to last byte is `=`, else one where the last
/// is, else none.
pub open spec fn pad_count(s: Seq<u8>) -> nat {
    if s[s.len() - 2] == PAD {
        2
    } else if s[s.len() - 1] == PAD {
        1
    } else {
        0
    }
}

/// Number of leading symbols of `s` that decoding reads.
pub open spec fn used_len(s: Seq<u8>) -> int {
    s.len() - pad_count(s)
}

/// Symbol `j` of `s` is read by decoding and is not in the table `t`.
pub open spec fn invalid_at(s: Seq<u8>, t: Seq<u8>, j: int) -> bool {
    0 <= j < used_len(s) && t[s[j] as int] == INVALID
}

/// The first symbol that decoding reads and the table `t` rejects.
pub open spec fn first_invalid(s: Seq<u8>, t: Seq<u8>) -> int {
    choose|j: int| invalid_at(s, t, j) && forall|k: int| 0 <= k < j ==> !invalid_at(s, t, k)
}

/// The six-bit value of symbol `j` of `s` under table `t`; zero for the
/// symbols that decoding does not read.
pub open spec fn symbol_value(s: Seq<u8>, t: Seq<u8>, j: int) -> u32 {
    if j < used_len(s) {
        t[s[j] as int] as u32
    } else {
        0
    }
}

/// The 24 bits that the four symbols of group `g` of `s` stand for.
pub open spec fn quad_bits(s: Seq<u8>, t: Seq<u8>, g: int) -> u32 {
    symbol_value(s, t, 4 * g) << 18 | symbol_value(s, t, 4 * g + 1) << 12 | symbol_value(
        s,
        t,
        4 * g + 2,
    ) << 6 | symbol_value(s, t, 4 * g + 3)
}

/// Number of bytes that `s` decodes to: three per group, less one per
/// padding symbol.
pub open spec fn decoded_len(s: Seq<u8>) -> int {
    s.len() / 4 * 3 - pad_count(s)
}

/// The bytes that `s` stands for under table `t`: byte `i` is byte `i % 3`
/// of the 24 bits of group `i / 3`.
pub open spec fn decoded_bytes(s: Seq<u8>, t: Seq<u8>) -> Seq<u8> {
    Seq::new(
        decoded_len(s) as nat,
        |i: int| ((quad_bits(s, t, i / 3) >> ((16 - 8 * (i % 3)) as u32)) & 0xFF) as u8,
    )
}

/// Base64 decoding of `s` with the decode table `t`.
pub open spec fn decode_spec(s: Seq<u8>, t: Seq<u8>) -> Result<Seq<u8>, Base64Error> {
    if s.len() == 0 || s.len() % 4 != 0 {
        Err(Base64Error::InvalidLength)
    } else if exists|j: int| invalid_at(s, t, j) {
        Err(Base64Error::InvalidByte(InvalidByteError { b: s[first_invalid(s, t)] }))
    } else {
        Ok(decoded_bytes(s, t))
    }
}

proof fn lemma_first_invalid(s: Seq<u8>, t: Seq<u8>, j: int)
    requires
        invalid_at(s, t, j),
        forall|k: int| 0 <= k < j ==> !invalid_at(s, t, k),
    ensures
        first_invalid(s, t) == j,
{
    let c = first_invalid(s, t);
    assert(invalid_at(s, t, c) && forall|k: int| 0 <= k < c ==> !invalid_at(s, t, k));
    if c < j {
        assert(!invalid_at(s, t, c));
    } else if c > j {
        assert(!invalid_at(s, t, j));
    }
}

proof fn lemma_quad_bytes(v0: u32, v1: u32, v2: u32, v3: u32)
    by (bit_vector)
    ensures
        ({
            let v = v0 << 18 | v1 << 12 | v2 << 6 | v3;
            &&& (v >> 16) & 0xFF == (v >> ((16 - 8 * 0) as u32)) & 0xFF
            &&& (v >> 8) & 0xFF == (v >> ((16 - 8 * 1) as u32)) & 0xFF
            &&& v & 0xFF == (v >> ((16 - 8 * 2) as u32)) & 0xFF
        }),
{
}

fn from_char(b: u8, decode_map: &[u8]) -> (r: Result<u8, InvalidByteError>)
    requires
        decode_map@.len() >= 256,
    ensures
        decode_map@[b as int] == INVALID ==> r == Err::<u8, InvalidByteError>(
            InvalidByteError { b },
        ),
        decode_map@[b as int] != INVALID ==> r == Ok::<u8, InvalidByteError>(
            decode_map@[b as int],
        ),
{
    let out = decode_map[b as usize];
    if out == INVALID {
        return Err(InvalidByteError::new(b));
    }
    Ok(out)
}

/// The value of symbol `j`, or zero where `j` is not below `used`.
fn symbol_at(src: &[u8], j: usize, used: usize, decode_map: &[u8]) -> (r: Result<
    u32,
    InvalidByteError,
>)
    requires
        j < src@.len(),
        src@.len() >= 4,
        used == used_len(src@),
        decode_map@.len() >= 256,
    ensures
        match r {
            Ok(v) => v == symbol_value(src@, decode_map@, j as int) && !invalid_at(
                src@,
                decode_map@,
                j as int,
            ),
            Err(e) => invalid_at(src@, decode_map@, j as int) && e == (InvalidByteError {
                b: src@[j as int],
            }),
        },
{
    if j < used {
        match from_char(src[j], decode_map) {
            Ok(v) => Ok(v as u32),
            Err(e) => Err(e),
        }
    } else {
        Ok(0)
    }
}

/// Decodes `src` with the decode table `decode_map` into the front of `dst`
/// and returns the number of bytes written.
///
/// The length must be a positive multiple of four. In the last group, a `=`
/// as third symbol leaves two symbols to read, a `=` as fourth symbol three.
/// The first symbol read that is not in the table is reported.
pub fn decode(dst: &mut [u8], src: &[u8], decode_map: &[u8]) -> (r: Result<usize, Base64Error>)
    requires
        decode_map@.len() >= 256,
        old(dst)@.len() >= src@.len() / 4 * 3,
    ensures
        final(dst)@.len() == old(dst)@.len(),
        match decode_spec(src@, decode_map@) {
            Ok(out) => r == Ok::<usize, Base64Error>(out.len() as usize) && final(dst)@ == out
                + old(dst)@.skip(out.len() as int),
            Err(e) => r == Err::<usize, Base64Error>(e),
        },
{
    let ghost s = src@;
    let ghost t = decode_map@;
    let src_len = src.len();
    if src_len == 0 || src_len % 4 != 0 {
        return Err(Base64Error::InvalidLength);
    }
    let pads: usize = if src[src_len - 2] == PAD_CHAR {
        2
    } else if src[src_len - 1] == PAD_CHAR {
        1
    } else {
        0
    };
    let used = src_len - pads;
    let ghost out = decoded_bytes(s, t);
    assert(used == used_len(s));
    let mut src_idx: usize = 0;
    let mut dst_idx: usize = 0;
    while src_idx + 4 < src_len
        invariant
            s == src@,
            t == decode_map@,
            t.len() >= 256,
            src_len == s.len(),
            src_len % 4 == 0,
            src_len >= 4,
            used == used_len(s),
            out == decoded_bytes(s, t),
            src_idx % 4 == 0,
            src_idx + 4 <= src_len,
            dst_idx == src_idx / 4 * 3,
            dst@.len() == old(dst)@.len(),
            dst@.len() >= src_len / 4 * 3,
            forall|k: int| 0 <= k < src_idx ==> !invalid_at(s, t, k),
            forall|i: int| 0 <= i < dst_idx ==> #[trigger] dst@[i] == out[i],
            forall|i: int| dst_idx <= i < dst@.len() ==> #[trigger] dst@[i] == old(dst)@[i],
        decreases src_len - src_idx,
    {
        let mut v = [0u32; 4];
        let mut k: usize = 0;
        while k < 4
            invariant
                s == src@,
                t == decode_map@,
                t.len() >= 256,
                src_len == s.len(),
                src_len >= 4,
                src_len % 4 == 0,
                used == used_len(s),
                src_idx + 4 <= src_len,
                dst@.len() == old(dst)@.len(),
                k <= 4,
                forall|m: int| 0 <= m < src_idx + k ==> !invalid_at(s, t, m),
                forall|m: int| 0 <= m < k ==> v@[m] == symbol_value(s, t, src_idx + m),
            decreases 4 - k,
        {
            match symbol_at(src, src_idx + k, used, decode_map) {
                Ok(x) => {
                    v[k] = x;
                },
                Err(e) => {
                    proof {
                        lemma_first_invalid(s, t, src_idx + k);
                    }
                    return Err(Base64Error::InvalidByte(e));
                },
            }
            k += 1;
        }
        let val: u32 = v[0] << 18 | v[1] << 12 | v[2] << 6 | v[3];
        let ghost g = (src_idx / 4) as int;
        proof {
            assert(4 * g == src_idx);
            assert(val == quad_bits(s, t, g));
            lemma_quad_bytes(v[0], v[1], v[2], v[3]);
        }
        dst[dst_idx] = ((val >> 16) & 0xFF) as u8;
        dst[dst_idx + 1] = ((val >> 8) & 0xFF) as u8;
        dst[dst_idx + 2] = (val & 0xFF) as u8;
        proof {
            assert forall|i: int| 0 <= i < dst_idx + 3 implies #[trigger] dst@[i] == out[i] by {
                if i >= dst_idx {
                    assert(i / 3 == g);
                }
            }
        }
        src_idx += 4;
        dst_idx += 3;
    }
    let mut v = [0u32; 4];
    let mut k: usize = 0;
    while k < 4
        invariant
            s == src@,
            t == decode_map@,
            t.len() >= 256,
            src_len == s.len(),
            src_len >= 4,
            src_len % 4 == 0,
            used == used_len(s),
            src_idx + 4 == src_len,
            dst@.len() == old(dst)@.len(),
            k <= 4,
            forall|m: int| 0 <= m < src_idx + k ==> !invalid_at(s, t, m),
            forall|m: int| 0 <= m < k ==> v@[m] == symbol_value(s, t, src_idx + m),
        decreases 4 - k,
    {
        match symbol_at(src, src_idx + k, used, decode_map) {
            Ok(x) => {
                v[k] = x;
            },
            Err(e) => {
                proof {
                    lemma_first_invalid(s, t, src_idx + k);
                }
                return Err(Base64Error::InvalidByte(e));
            },
        }
        k += 1;
    }
    proof {
        assert forall|j: int| !invalid_at(s, t, j) by {
            if 0 <= j < used_len(s) {
                assert(j < src_idx + 4);
            }
        }
    }
    let val: u32 = v[0] << 18 | v[1] << 12 | v[2] << 6 | v[3];
    let ghost g = (src_idx / 4) as int;
    proof {
        assert(4 * g == src_idx);
        assert(val == quad_bits(s, t, g));
        lemma_quad_bytes(v[0], v[1], v[2], v[3]);
    }
    dst[dst_idx] = ((val >> 16) & 0xFF) as u8;
    if pads < 2 {
        dst[dst_idx + 1] = ((val >> 8) & 0xFF) as u8;
    }
    if pads < 1 {
        dst[dst_idx + 2] = (val & 0xFF) as u8;
    }
    let written = dst_idx + 3 - pads;
    proof {
        assert(written == decoded_len(s));
        assert forall|i: int| 0 <= i < written implies #[trigger] dst@[i] == out[i] by {
            if i >= dst_idx {
                assert(i / 3 == g);
            }
        }
        assert(dst@ =~= out + old(dst)@.skip(out.len() as int));
    }
    Ok(written)
}

proof fn lemma_group_round_trip(b0: u8, b1: u8, b2: u8)
    by (bit_vector)
    ensures
        ({
            let v = (b0 as u32) << 16 | (b1 as u32) << 8 | (b2 as u32);
            let w = sextet(v, 0) << 18 | sextet(v, 1) << 12 | sextet(v, 2) << 6 | sextet(v, 3);
            &&& (w >> ((16 - 8 * 0) as u32)) & 0xFF == b0
            &&& (w >> ((16 - 8 * 1) as u32)) & 0xFF == b1
            &&& (w >> ((16 - 8 * 2) as u32)) & 0xFF == b2
            &&& sextet(v, 0) < 64
            &&& sextet(v, 1) < 64
            &&& sextet(v, 2) < 64
            &&& sextet(v, 3) < 64
            &&& b0 == 0 && b1 == 0 && b2 == 0 ==> sextet(v, 0) == 0 && sextet(v, 1) == 0
            &&& b1 == 0 && b2 == 0 ==> sextet(v, 2) == 0
            &&& b2 == 0 ==> sextet(v, 3) == 0
        }),
{
}

/// A symbol past the data symbols covers no input bit, so its six bits are
/// zero.
proof fn lemma_padding_sextet_zero(s: Seq<u8>, j: int)
    requires
        data_symbols(s.len()) <= j < encoded_len(s.len()),
    ensures
        sextet(group_bits(s, j / 4), j % 4) == 0,
{
    let m = s.len() as int;
    let g = j / 4;
    let k = j % 4;
    assert(6 * j >= 8 * m);
    assert(j == 4 * g + k);
    let b0 = byte_or_zero(s, 3 * g);
    let b1 = byte_or_zero(s, 3 * g + 1);
    let b2 = byte_or_zero(s, 3 * g + 2);
    lemma_group_round_trip(b0, b1, b2);
    if k <= 1 {
        assert(m <= 3 * g);
    } else if k == 2 {
        assert(m <= 3 * g + 1);
    } else {
        assert(m <= 3 * g + 2);
    }
}

/// A data symbol of the encoding is the alphabet entry of its six bits,
/// which the decode table maps back to those bits.
proof fn lemma_data_symbol(s: Seq<u8>, a: Seq<u8>, j: int)
    requires
        is_alphabet(a, 64),
        0 <= j < data_symbols(s.len()),
        j < encoded_len(s.len()),
    ensures
        ({
            let x = sextet(group_bits(s, j / 4), j % 4);
            &&& x < 64
            &&& encode_spec(s, a)[j] == a[x as int]
            &&& encode_spec(s, a)[j] != PAD
            &&& inverse_table(a)[encode_spec(s, a)[j] as int] == x
        }),
{
    let x = sextet(group_bits(s, j / 4), j % 4);
    lemma_group_round_trip(
        byte_or_zero(s, 3 * (j / 4)),
        byte_or_zero(s, 3 * (j / 4) + 1),
        byte_or_zero(s, 3 * (j / 4) + 2),
    );
    assert(0 <= j % 4 < 4);
    assert(x < 64);
    assert(a[x as int] != PAD);
    lemma_inverse_table(a);
}

/// Decoding what was encoded gives back the input, for every non-empty
/// input and every alphabet, with the alphabet's decode table.
pub proof fn lemma_round_trip(s: Seq<u8>, a: Seq<u8>)
    requires
        is_alphabet(a, 64),
        s.len() > 0,
    ensures
        decode_spec(encode_spec(s, a), inverse_table(a)) == Ok::<Seq<u8>, Base64Error>(s),
{
    let e = encode_spec(s, a);
    let t = inverse_table(a);
    let m = s.len() as int;
    let n = e.len() as int;
    let d = data_symbols(s.len()) as int;
    lemma_inverse_table(a);
    assert(n == encoded_len(s.len()));
    assert(n > 0 && n % 4 == 0);
    assert forall|j: int| 0 <= j < d implies #[trigger] t[e[j] as int] == sextet(
        group_bits(s, j / 4),
        j % 4,
    ) as u8 && e[j] != PAD by {
        lemma_data_symbol(s, a, j);
    }
    if m % 3 == 0 {
        assert(d == n);
        lemma_data_symbol(s, a, n - 2);
        lemma_data_symbol(s, a, n - 1);
    } else if m % 3 == 1 {
        assert(d == n - 2);
    } else {
        assert(d == n - 1);
        lemma_data_symbol(s, a, n - 2);
    }
    assert(used_len(e) == d);
    assert(decoded_len(e) == m);
    assert forall|j: int| !invalid_at(e, t, j) by {
        if 0 <= j < d {
            lemma_data_symbol(s, a, j);
        }
    }
    assert forall|j: int| 0 <= j < n implies symbol_value(e, t, j) == sextet(
        group_bits(s, j / 4),
        j % 4,
    ) by {
        if j >= d {
            lemma_padding_sextet_zero(s, j);
        } else {
            lemma_data_symbol(s, a, j);
        }
    }
    let out = decoded_bytes(e, t);
    assert forall|i: int| 0 <= i < m implies out[i] == s[i] by {
        let g = i / 3;
        let v = group_bits(s, g);
        assert(4 * g + 3 < n);
        assert((4 * g) / 4 == g && (4 * g) % 4 == 0);
        assert((4 * g + 1) / 4 == g && (4 * g + 1) % 4 == 1);
        assert((4 * g + 2) / 4 == g && (4 * g + 2) % 4 == 2);
        assert((4 * g + 3) / 4 == g && (4 * g + 3) % 4 == 3);
        assert(quad_bits(e, t, g) == sextet(v, 0) << 18 | sextet(v, 1) << 12 | sextet(v, 2) << 6
            | sextet(v, 3));
        lemma_group_round_trip(
            byte_or_zero(s, 3 * g),
            byte_or_zero(s, 3 * g + 1),
            byte_or_zero(s, 3 * g + 2),
        );
        assert(i == 3 * g + i % 3);
    }
    assert(out =~= s);
}

/// Upper bound on the length of what a text of `n` symbols decodes to:
/// three bytes per whole group of four.
pub open spec fn max_decoded_len(n: nat) -> nat {
    n / 4 * 3
}

/// Length laws: decoding room for an encoding is at least the input length,
/// and a longer input never has a shorter encoding.
pub proof fn lemma_len_laws(n: nat, m: nat)
    ensures
        max_decoded_len(encoded_len(n)) >= n,
        n <= m ==> encoded_len(n) <= encoded_len(m),
{
    assert(encoded_len(n) / 4 == (n + 2) / 3);
    if n <= m {
        assert((n + 2) / 3 <= (m + 2) / 3);
    }
}

proof fn lemma_encode_ascii(s: Seq<u8>, a: Seq<u8>)
    requires
        a.len() >= 64,
        all_ascii(a),
    ensures
        all_ascii(encode_spec(s, a)),
{
    assert forall|j: int| 0 <= j < encode_spec(s, a).len() implies #[trigger] encode_spec(s, a)[j]
        < 128 by {
        if j < data_symbols(s.len()) {
            let g = j / 4;
            lemma_group_round_trip(
                byte_or_zero(s, 3 * g),
                byte_or_zero(s, 3 * g + 1),
                byte_or_zero(s, 3 * g + 2),
            );
            assert(0 <= j % 4 < 4);
            assert(sextet(group_bits(s, g), j % 4) < 64);
        }
    }
}

/// Length of the base64 encoding of the bytes of `src`.
pub fn encode_str_len(src: &str) -> (r: usize)
    requires
        encoded_len(src.spec_bytes().len()) <= usize::MAX,
    ensures
        r == encoded_len(src.spec_bytes().len()),
{
    encode_len(src.len())
}

/// Length of the base64 encoding of `src_len` bytes.
pub fn encode_len(src_len: usize) -> (r: usize)
    requires
        encoded_len(src_len as nat) <= usize::MAX,
    ensures
        r == encoded_len(src_len as nat),
{
    (src_len + 2) / 3 * 4
}

/// Room needed to decode `n` symbols: three bytes for each group of four.
pub fn decode_len(n: usize) -> (r: usize)
    ensures
        r == max_decoded_len(n as nat),
{
    n / 4 * 3
}

/// Encodes `src` with the alphabet `encode_map`.
pub fn encode_bytes_with_map(src: &[u8], encode_map: &[u8]) -> (r: Vec<u8>)
    requires
        encode_map@.len() >= 64,
        encoded_len(src@.len()) <= usize::MAX,
    ensures
        r@ == encode_spec(src@, encode_map@),
{
    let dst_len = encode_len(src.len());
    let mut dst = vec![0u8; dst_len];
    encode(dst.as_mut_slice(), src, encode_map);
    proof {
        assert(dst@ =~= encode_spec(src@, encode_map@));
    }
    dst
}

/// Encodes the bytes of `src` with the ASCII alphabet `encode_map`.
pub fn encode_str_with_map(src: &str, encode_map: &[u8]) -> (r: String)
    requires
        encode_map@.len() >= 64,
        all_ascii(encode_map@),
        encoded_len(src.spec_bytes().len()) <= usize::MAX,
    ensures
        r@ == ascii_chars(encode_spec(src.spec_bytes(), encode_map@)),
{
    let dst = encode_bytes_with_map(src.as_bytes(), encode_map);
    proof {
        lemma_encode_ascii(src.spec_bytes(), encode_map@);
    }
    ascii_string(dst)
}

/// Encodes `src` with the standard alphabet.
pub fn encode_bytes(src: &[u8]) -> (r: Vec<u8>)
    requires
        encoded_len(src@.len()) <= usize::MAX,
    ensures
        r@ == encode_spec(src@, ENCODE_STD@),
{
    encode_bytes_with_map(src, &ENCODE_STD)
}

/// Encodes `src` with the standard alphabet, as text.
pub fn encode_to_str(src: &[u8]) -> (r: String)
    requires
        encoded_len(src@.len()) <= usize::MAX,
    ensures
        r@ == ascii_chars(encode_spec(src@, ENCODE_STD@)),
{
    let dst = encode_bytes_with_map(src, &ENCODE_STD);
    proof {
        lemma_shipped_tables();
        lemma_encode_ascii(src@, ENCODE_STD@);
    }
    ascii_string(dst)
}

/// Encodes the bytes of `src` with the standard alphabet, as text.
pub fn encode_str(src: &str) -> (r: String)
    requires
        encoded_len(src.spec_bytes().len()) <= usize::MAX,
    ensures
        r@ == ascii_chars(encode_spec(src.spec_bytes(), ENCODE_STD@)),
{
    proof {
        lemma_shipped_tables();
    }
    encode_str_with_map(src, &ENCODE_STD)
}

/// Builds the decode table of `encode_map`.
pub fn decode_map(encode_map: &[u8]) -> (r: Vec<u8>)
    requires
        encode_map@.len() <= 256,
    ensures
        r@ == inverse_table(encode_map@),
{
    invert_alphabet(encode_map)
}

/// Decodes the bytes of `src` with the standard decode table.
pub fn decode_str(src: &str) -> (r: Result<Vec<u8>, Base64Error>)
    ensures
        match decode_spec(src.spec_bytes(), DECODE_STD_MAP@) {
            Ok(out) => r.is_ok() && r.unwrap()@ == out,
            Err(e) => r == Err::<Vec<u8>, Base64Error>(e),
        },
{
    let bytes = src.as_bytes();
    let mut dst = vec![0u8; decode_len(bytes.len())];
    match decode(dst.as_mut_slice(), bytes, &DECODE_STD_MAP) {
        Ok(size) => {
            dst.truncate(size);
            proof {
                assert(dst@ =~= decode_spec(bytes@, DECODE_STD_MAP@).unwrap());
            }
            Ok(dst)
        },
        Err(e) => Err(e),
    }
}

/// The shipped alphabets are alphabets, and the shipped decode tables are
/// their decode tables.
pub proof fn lemma_shipped_tables()
    ensures
        is_alphabet(ENCODE_STD@, 64),
        is_alphabet(ENCODE_URL@, 64),
        DECODE_STD_MAP@ == inverse_table(ENCODE_STD@),
        DECODE_URL_MAP@ == inverse_table(ENCODE_URL@),
{
    assert(is_alphabet(ENCODE_STD@, 64));
    assert(is_alphabet(ENCODE_URL@, 64));
    assert(forall|i: int| 0 <= i < 64 ==> DECODE_STD_MAP@[#[trigger] ENCODE_STD@[i] as int] == i);
    assert(forall|c: int|
        0 <= c < 256 && #[trigger] DECODE_STD_MAP@[c] != INVALID ==> DECODE_STD_MAP@[c] < 64
            && ENCODE_STD@[DECODE_STD_MAP@[c] as int] == c);
    lemma_table_matches(ENCODE_STD@, DECODE_STD_MAP@);
    assert(forall|i: int| 0 <= i < 64 ==> DECODE_URL_MAP@[#[trigger] ENCODE_URL@[i] as int] == i);
    assert(forall|c: int|
        0 <= c < 256 && #[trigger] DECODE_URL_MAP@[c] != INVALID ==> DECODE_URL_MAP@[c] < 64
            && ENCODE_URL@[DECODE_URL_MAP@[c] as int] == c);
    lemma_table_matches(ENCODE_URL@, DECODE_URL_MAP@);
}

/// With either shipped alphabet and its shipped decode table, decoding what
/// was encoded gives back the non-empty input.
pub proof fn lemma_shipped_round_trip(s: Seq<u8>)
    requires
        s.len() > 0,
    ensures
        decode_spec(encode_spec(s, ENCODE_STD@), DECODE_STD_MAP@) == Ok::<Seq<u8>, Base64Error>(s),
        decode_spec(encode_spec(s, ENCODE_URL@), DECODE_URL_MAP@) == Ok::<Seq<u8>, Base64Error>(s),
{
    lemma_shipped_tables();
    lemma_round_trip(s, ENCODE_STD@);
    lemma_round_trip(s, ENCODE_URL@);
}

} // verus!
