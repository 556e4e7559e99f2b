use connx::base32::{
    decode, decode_len, decode_map, encode, encode_len, Base32Error, InvalidByteError,
    DECODE_HEX_MAP, DECODE_STD_MAP, ENCODE_HEX, ENCODE_STD,
};

fn test_encode_base(data: &[u8], encoded_expect: &[u8]) {
    let mut dst = vec![0; encode_len(data.len())];
    encode(&mut dst, data, &ENCODE_STD);
    assert_eq!(dst, encoded_expect);
}

#[test]
fn test_encode_01() {
    test_encode_base(b"", b"");
    test_encode_base(b"f", b"MY======");
    test_encode_base(b"fo", b"MZXQ====");
    test_encode_base(b"foo", b"MZXW6===");
    test_encode_base(b"foob", b"MZXW6YQ=");
    test_encode_base(b"fooba", b"MZXW6YTB");
    test_encode_base(b"foobar", b"MZXW6YTBOI======");
}

fn decode_with(src: &[u8], table: &[u8]) -> Result<Vec<u8>, Base32Error> {
    let mut dst = vec![0; decode_len(src.len())];
    let n = decode(&mut dst, src, table)?;
    dst.truncate(n);
    Ok(dst)
}

fn encode_with(src: &[u8], alphabet: &[u8]) -> Vec<u8> {
    let mut dst = vec![0; encode_len(src.len())];
    encode(&mut dst, src, alphabet);
    dst
}

#[test]
fn base32_decodes_standard_vectors() {
    assert_eq!(decode_with(b"", &DECODE_STD_MAP), Ok(vec![]));
    assert_eq!(decode_with(b"MY======", &DECODE_STD_MAP), Ok(b"f".to_vec()));
    assert_eq!(decode_with(b"MZXQ====", &DECODE_STD_MAP), Ok(b"fo".to_vec()));
    assert_eq!(decode_with(b"MZXW6===", &DECODE_STD_MAP), Ok(b"foo".to_vec()));
    assert_eq!(decode_with(b"MZXW6YQ=", &DECODE_STD_MAP), Ok(b"foob".to_vec()));
    assert_eq!(decode_with(b"MZXW6YTB", &DECODE_STD_MAP), Ok(b"fooba".to_vec()));
    assert_eq!(
        decode_with(b"MZXW6YTBOI======", &DECODE_STD_MAP),
        Ok(b"foobar".to_vec())
    );
}

#[test]
fn base32_hex_alphabet_vectors() {
    assert_eq!(encode_with(b"f", &ENCODE_HEX), b"CO======".to_vec());
    assert_eq!(encode_with(b"foobar", &ENCODE_HEX), b"CPNMUOJ1E8======".to_vec());
    assert_eq!(
        decode_with(b"CPNMUOJ1E8======", &DECODE_HEX_MAP),
        Ok(b"foobar".to_vec())
    );
}

#[test]
fn base32_round_trip_both_alphabets() {
    let data: Vec<u8> = (0..=255u8).rev().collect();
    for n in 0..40 {
        let part = &data[..n];
        let std = encode_with(part, &ENCODE_STD);
        assert_eq!(decode_with(&std, &DECODE_STD_MAP), Ok(part.to_vec()));
        let hex = encode_with(part, &ENCODE_HEX);
        assert_eq!(decode_with(&hex, &DECODE_HEX_MAP), Ok(part.to_vec()));
    }
}

#[test]
fn base32_decode_errors() {
    assert_eq!(decode_with(b"MY=====", &DECODE_STD_MAP), Err(Base32Error::InvalidLength));
    assert_eq!(
        decode_with(b"MY1=====", &DECODE_STD_MAP),
        Err(Base32Error::InvalidByte(InvalidByteError::new(b'1')))
    );
    assert_eq!(
        decode_with(b"M=======MY======", &DECODE_STD_MAP),
        Err(Base32Error::InvalidByte(InvalidByteError::new(b'=')))
    );
    assert_eq!(decode_with(b"M=======", &DECODE_STD_MAP), Err(Base32Error::InvalidPadding));
    assert_eq!(decode_with(b"MY=A====", &DECODE_STD_MAP), Err(Base32Error::InvalidPadding));
    assert_eq!(decode_with(b"========", &DECODE_STD_MAP), Err(Base32Error::InvalidPadding));
}

#[test]
fn base32_decode_maps_match_tables() {
    assert_eq!(decode_map(&ENCODE_STD), DECODE_STD_MAP.to_vec());
    assert_eq!(decode_map(&ENCODE_HEX), DECODE_HEX_MAP.to_vec());
    let m = decode_map(&ENCODE_STD);
    for (i, &c) in ENCODE_STD.iter().enumerate() {
        assert_eq!(m[c as usize], i as u8);
    }
    assert_eq!(m[b'=' as usize], 0xff);
    assert_eq!(m[b'a' as usize], 0xff);
}

#[test]
fn base32_lengths() {
    assert_eq!(encode_len(0), 0);
    assert_eq!(encode_len(1), 8);
    assert_eq!(encode_len(5), 8);
    assert_eq!(encode_len(6), 16);
    assert_eq!(decode_len(16), 10);
    assert_eq!(decode_len(15), 5);
    for n in 0..100usize {
        assert!(decode_len(encode_len(n)) >= n);
        assert!(encode_len(n) <= encode_len(n + 1));
    }
}

#[test]
fn base32_error_messages() {
    assert_eq!(
        Base32Error::InvalidLength.message(),
        "encoding/base32: invalid input length".to_string()
    );
    assert_eq!(
        Base32Error::InvalidPadding.message(),
        "encoding/base32: invalid padding".to_string()
    );
    assert_eq!(
        Base32Error::InvalidByte(InvalidByteError::new(b'1')).message(),
        "encoding/base32: invalid byte: 49".to_string()
    );
}
