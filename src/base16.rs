//! Base16 (RFC 4648), the hex encoding: each byte becomes two digits, high
//! nibble first. Encoding writes lowercase digits; decoding accepts both
//! cases.

use crate::symbols::{all_ascii, ascii_chars, ascii_string, byte_message, decimal};
use vstd::prelude::*;
use vstd::string::{StringExecFns, StringSliceAdditionalSpecFns};

verus! {

/// Errors of base16 decoding.
#[derive(Debug, PartialEq, Eq, Structural)]
pub enum Base16Error {
    /// A byte of the input is not a hex digit.
    InvalidByte(InvalidByteError),
    /// The input has an odd number of digits.
    OddLength,
}

/// A byte that is not a hex digit.
#[derive(Debug, PartialEq, Eq, Structural)]
pub struct InvalidByteError {
    /// The offending byte.
    pub b: u8,
}

impl InvalidByteError {
    pub fn new(b: u8) -> (r: Self)
        ensures
            r == (InvalidByteError { b }),
    {
        Self { b }
    }

    /// The text that reports this error.
    pub fn message(&self) -> (r: String)
        ensures
            r@ == "encoding/base16: invalid byte: "@ + decimal(self.b as nat),
    {
        byte_message("encoding/base16: invalid byte: ", self.b)
    }
}

impl Base16Error {
    /// The text that reports this error.
    pub fn message(&self) -> (r: String)
        ensures
            r@ == match self {
                Base16Error::InvalidByte(e) => "encoding/base16: invalid byte: "@ + decimal(e.b as nat),
                Base16Error::OddLength => "encoding/base16: odd length hex string"@,
            },
    {
        match self {
            Base16Error::InvalidByte(e) => e.message(),
            Base16Error::OddLength => String::from_str("encoding/base16: odd length hex string"),
        }
    }
}

impl From<InvalidByteError> for Base16Error {
    fn from(e: InvalidByteError) -> (r: Self)
        ensures
            r == Base16Error::InvalidByte(e),
    {
        Self::InvalidByte(e)
    }
}

impl vstd::std_specs::convert::FromSpecImpl<InvalidByteError> for Base16Error {
    open spec fn obeys_from_spec() -> bool {
        true
    }

    open spec fn from_spec(e: InvalidByteError) -> Self {
        Base16Error::InvalidByte(e)
    }
}

/// The digits, lowercase.
pub const HEX_TABLE: [u8; 16] = [
    0x30, 0x31, 0x32, 0x33, 0x34, 0x35, 0x36, 0x37, 0x38, 0x39, 0x61, 0x62, 0x63, 0x64, 0x65, 0x66,
];

/// Length of the hex encoding of `n` bytes: two digits per byte.
pub open spec fn encoded_len(n: nat) -> nat {
    2 * n
}

/// Number of bytes that `n` hex digits stand for: one per pair.
pub open spec fn max_decoded_len(n: nat) -> nat {
    n / 2
}

/// `c` is a hex digit: `0`-`9`, `a`-`f` or `A`-`F`.
pub open spec fn is_hex_digit(c: u8) -> bool {
    (0x30 <= c <= 0x39) || (0x61 <= c <= 0x66) || (0x41 <= c <= 0x46)
}

/// The value of the hex digit `c`.
pub open spec fn hex_value(c: u8) -> int {
    if 0x30 <= c <= 0x39 {
        c - 0x30
    } else if 0x61 <= c <= 0x66 {
        c - 0x61 + 10
    } else {
        c - 0x41 + 10
    }
}

/// The hex encoding of `s`: for each byte, the digit of its high nibble,
/// then that of its low nibble.
pub open spec fn encode_spec(s: Seq<u8>) -> Seq<u8> {
    Seq::new(
        encoded_len(s.len()),
        |j: int|
            HEX_TABLE@[if j % 2 == 0 {
                s[j / 2] / 16
            } else {
                s[j / 2] % 16
            } as int],
    )
}

/// Byte `j` of `s` is not a hex digit.
pub open spec fn invalid_at(s: Seq<u8>, j: int) -> bool {
    0 <= j < s.len() && !is_hex_digit(s[j])
}

/// The first byte of `s` that is not a hex digit.
pub open spec fn first_invalid(s: Seq<u8>) -> int {
    choose|j: int| invalid_at(s, j) && forall|k: int| 0 <= k < j ==> !invalid_at(s, k)
}

/// The bytes that the digits of `s` stand for, two digits per byte.
pub open spec fn decoded_bytes(s: Seq<u8>) -> Seq<u8> {
    Seq::new(s.len() / 2, |i: int| (16 * hex_value(s[2 * i]) + hex_value(s[2 * i + 1])) as u8)
}

/// Hex decoding of `s`: the first byte that is not a digit is reported,
/// whatever the length; an odd number of digits is reported after that.
pub open spec fn decode_spec(s: Seq<u8>) -> Result<Seq<u8>, Base16Error> {
    if exists|j: int| invalid_at(s, j) {
        Err(Base16Error::InvalidByte(InvalidByteError { b: s[first_invalid(s)] }))
    } else if s.len() % 2 == 1 {
        Err(Base16Error::OddLength)
    } else {
        Ok(decoded_bytes(s))
    }
}

proof fn lemma_hex_table()
    ensures
        all_ascii(HEX_TABLE@),
        forall|v: int|
            0 <= v < 16 ==> is_hex_digit(#[trigger] HEX_TABLE@[v]) && hex_value(HEX_TABLE@[v])
                == v,
{
}

proof fn lemma_nibbles(b: u8)
    by (bit_vector)
    ensures
        b >> 4 == b / 16,
        b & 0x0F == b % 16,
{
}

proof fn lemma_join_nibbles(hi: u8, lo: u8)
    by (bit_vector)
    requires
        hi < 16,
        lo < 16,
    ensures
        (hi << 4) | lo == 16 * hi + lo,
{
}

proof fn lemma_first_invalid(s: Seq<u8>, j: int)
    requires
        invalid_at(s, j),
        forall|k: int| 0 <= k < j ==> !invalid_at(s, k),
    ensures
        first_invalid(s) == j,
{
    let c = first_invalid(s);
    assert(invalid_at(s, c) && forall|k: int| 0 <= k < c ==> !invalid_at(s, k));
    if c < j {
        assert(!invalid_at(s, c));
    } else if c > j {
        assert(!invalid_at(s, j));
    }
}

/// Length of the hex encoding of `n` bytes.
pub fn encode_len(n: usize) -> (r: usize)
    requires
        encoded_len(n as nat) <= usize::MAX,
    ensures
        r == encoded_len(n as nat),
{
    n * 2
}

/// Number of bytes that `n` hex digits stand for.
pub fn decode_len(n: usize) -> (r: usize)
    ensures
        r == max_decoded_len(n as nat),
{
    n / 2
}

/// Encodes `src` into the first `2 * src.len()` bytes of `dst` and returns
/// that length.
pub fn encode(dst: &mut [u8], src: &[u8]) -> (r: usize)
    requires
        old(dst)@.len() >= encoded_len(src@.len()),
    ensures
        r == encoded_len(src@.len()),
        final(dst)@ == encode_spec(src@) + old(dst)@.skip(r as int),
{
    let ghost s = src@;
    let ghost out = encode_spec(s);
    let mut i: usize = 0;
    assert(dst@.len() == dst.len());
    while i < src.len()
        invariant
            s == src@,
            out == encode_spec(s),
            i <= s.len(),
            dst@.len() == old(dst)@.len(),
            dst@.len() <= usize::MAX,
            dst@.len() >= 2 * s.len(),
            forall|j: int| 0 <= j < 2 * i ==> #[trigger] dst@[j] == out[j],
            forall|j: int| 2 * i <= j < dst@.len() ==> #[trigger] dst@[j] == old(dst)@[j],
        decreases s.len() - i,
    {
        let b = src[i];
        proof {
            lemma_nibbles(b);
        }
        dst[2 * i] = HEX_TABLE[(b >> 4) as usize];
        dst[2 * i + 1] = HEX_TABLE[(b & 0x0F) as usize];
        proof {
            assert forall|j: int| 0 <= j < 2 * i + 2 implies #[trigger] dst@[j] == out[j] by {
                if j >= 2 * i {
                    assert(j / 2 == i);
                }
            }
        }
        i += 1;
    }
    proof {
        assert(dst@ =~= out + old(dst)@.skip(2 * s.len() as int));
    }
    src.len() * 2
}

fn from_hex_char(b: u8) -> (r: Result<u8, InvalidByteError>)
    ensures
        is_hex_digit(b) ==> r == Ok::<u8, InvalidByteError>(hex_value(b) as u8),
        !is_hex_digit(b) ==> r == Err::<u8, InvalidByteError>(InvalidByteError { b }),
{
    if 0x30 <= b && b <= 0x39 {
        Ok(b - 0x30)
    } else if 0x61 <= b && b <= 0x66 {
        Ok(b - 0x61 + 10)
    } else if 0x41 <= b && b <= 0x46 {
        Ok(b - 0x41 + 10)
    } else {
        Err(InvalidByteError::new(b))
    }
}

/// Decodes the hex digits `src` into the front of `dst` and returns the
/// number of bytes written.
pub fn decode(dst: &mut [u8], src: &[u8]) -> (r: Result<usize, Base16Error>)
    requires
        old(dst)@.len() >= src@.len() / 2,
    ensures
        final(dst)@.len() == old(dst)@.len(),
        match decode_spec(src@) {
            Ok(out) => r == Ok::<usize, Base16Error>(out.len() as usize) && final(dst)@ == out
                + old(dst)@.skip(out.len() as int),
            Err(e) => r == Err::<usize, Base16Error>(e),
        },
{
    let ghost s = src@;
    let ghost out = decoded_bytes(s);
    let n = src.len();
    let mut i: usize = 0;
    while i + 1 < n
        invariant
            s == src@,
            n == s.len(),
            out == decoded_bytes(s),
            i % 2 == 0,
            i <= n,
            dst@.len() == old(dst)@.len(),
            dst@.len() >= n / 2,
            forall|k: int| 0 <= k < i ==> !invalid_at(s, k),
            forall|j: int| 0 <= j < i / 2 ==> #[trigger] dst@[j] == out[j],
            forall|j: int| i / 2 <= j < dst@.len() ==> #[trigger] dst@[j] == old(dst)@[j],
        decreases n - i,
    {
        let hi = match from_hex_char(src[i]) {
            Ok(v) => v,
            Err(e) => {
                proof {
                    lemma_first_invalid(s, i as int);
                }
                return Err(Base16Error::InvalidByte(e));
            },
        };
        assert(!invalid_at(s, i as int));
        let lo = match from_hex_char(src[i + 1]) {
            Ok(v) => v,
            Err(e) => {
                proof {
                    lemma_first_invalid(s, i + 1);
                }
                return Err(Base16Error::InvalidByte(e));
            },
        };
        proof {
            lemma_join_nibbles(hi, lo);
        }
        dst[i / 2] = (hi << 4) | lo;
        proof {
            assert forall|j: int| 0 <= j < i / 2 + 1 implies #[trigger] dst@[j] == out[j] by {
                if j == i / 2 {
                    assert(2 * j == i);
                }
            }
        }
        i += 2;
    }
    if n % 2 == 1 {
        assert(i == n - 1);
        match from_hex_char(src[n - 1]) {
            Ok(_) => {},
            Err(e) => {
                proof {
                    lemma_first_invalid(s, n - 1);
                    assert(invalid_at(s, n - 1));
                }
                return Err(Base16Error::InvalidByte(e));
            },
        }
        proof {
            assert forall|j: int| !invalid_at(s, j) by {
                if 0 <= j < n {
                    assert(j < i || j == n - 1);
                }
            }
        }
        return Err(Base16Error::OddLength);
    }
    proof {
        assert(i == n);
        assert(dst@ =~= out + old(dst)@.skip(out.len() as int));
    }
    Ok(i / 2)
}

/// Encodes `src` as lowercase hex text.
pub fn encode_to_string(src: &[u8]) -> (r: String)
    requires
        encoded_len(src@.len()) <= usize::MAX,
    ensures
        r@ == ascii_chars(encode_spec(src@)),
{
    let mut dst = vec![0u8; encode_len(src.len())];
    encode(dst.as_mut_slice(), src);
    proof {
        lemma_hex_table();
        assert(dst@ =~= encode_spec(src@));
        assert(all_ascii(dst@)) by {
            assert forall|j: int| 0 <= j < dst@.len() implies #[trigger] dst@[j] < 128 by {
                let v = if j % 2 == 0 {
                    src@[j / 2] / 16
                } else {
                    src@[j / 2] % 16
                };
                assert(HEX_TABLE@[v as int] < 128);
            }
        }
    }
    ascii_string(dst)
}

/// Decodes the bytes of the hex text `src`.
pub fn decode_string(src: &str) -> (r: Result<Vec<u8>, Base16Error>)
    ensures
        match decode_spec(src.spec_bytes()) {
            Ok(out) => r.is_ok() && r.unwrap()@ == out,
            Err(e) => r == Err::<Vec<u8>, Base16Error>(e),
        },
{
    let bytes = src.as_bytes();
    let mut dst = vec![0u8; decode_len(bytes.len())];
    match decode(dst.as_mut_slice(), bytes) {
        Ok(_) => {
            proof {
                assert(dst@ =~= decode_spec(bytes@).unwrap());
            }
            Ok(dst)
        },
        Err(e) => Err(e),
    }
}

/// Decoding what was encoded gives back the input, for every input.
pub proof fn lemma_round_trip(s: Seq<u8>)
    ensures
        decode_spec(encode_spec(s)) == Ok::<Seq<u8>, Base16Error>(s),
{
    let e = encode_spec(s);
    lemma_hex_table();
    assert forall|j: int| 0 <= j < e.len() implies is_hex_digit(#[trigger] e[j]) && hex_value(e[j])
        == if j % 2 == 0 {
        s[j / 2] / 16
    } else {
        s[j / 2] % 16
    } by {
        let v = if j % 2 == 0 {
            s[j / 2] / 16
        } else {
            s[j / 2] % 16
        };
        assert(HEX_TABLE@[v as int] == e[j]);
    }
    assert forall|j: int| !invalid_at(e, j) by {
        if 0 <= j < e.len() {
            assert(is_hex_digit(e[j]));
        }
    }
    let out = decoded_bytes(e);
    assert forall|i: int| 0 <= i < s.len() implies out[i] == s[i] by {
        assert((2 * i) / 2 == i && (2 * i) % 2 == 0);
        assert((2 * i + 1) / 2 == i && (2 * i + 1) % 2 == 1);
        assert(is_hex_digit(e[2 * i]) && is_hex_digit(e[2 * i + 1]));
    }
    assert(out =~= s);
}

/// Length laws: the digits of `n` bytes stand for `n` bytes again, and a
/// longer input never has a shorter encoding.
pub proof fn lemma_len_laws(n: nat, m: nat)
    ensures
        max_decoded_len(encoded_len(n)) >= n,
        n <= m ==> encoded_len(n) <= encoded_len(m),
{
}

} // verus!
