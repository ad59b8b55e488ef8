//! Tests of the byte form and of the errors.

use exaloglog::DeserializeError;
use exaloglog::ExaLogLog;
use exaloglog::ExaLogLogFast;
use exaloglog::MergeError;

fn splitmix64(mut x: u64) -> u64 {
    x = x.wrapping_add(0x9E37_79B9_7F4A_7C15);
    x = (x ^ (x >> 30)).wrapping_mul(0xBF58_476D_1CE4_E5B9);
    x = (x ^ (x >> 27)).wrapping_mul(0x94D0_49BB_1331_11EB);
    x ^ (x >> 31)
}

fn packed_error(bytes: &[u8]) -> DeserializeError {
    ExaLogLog::from_bytes(bytes).unwrap_err()
}

#[test]
fn dense_header_and_registers() {
    let mut s = ExaLogLog::new_dense(3);
    // Register 3 gets value 2.
    s.add_hash(0x8000_0000_0000_000d);
    let bytes = s.to_bytes();
    let r: u64 = (2 << 20) | (1 << 18);
    let pair = r << 28;
    let mut want = vec![b'E', b'L', b'L', 0, 1, 2, 20, 3];
    want.extend_from_slice(&[0u8; 7]);
    want.extend_from_slice(&pair.to_le_bytes()[..7]);
    want.extend_from_slice(&[0u8; 14]);
    assert_eq!(bytes, want);
}

#[test]
fn sparse_header_and_tokens() {
    let mut s = ExaLogLogFast::new(5);
    s.add_hash(u64::MAX);
    s.add_hash(0);
    let bytes = s.to_bytes();
    let mut want = vec![b'E', b'L', b'L', 0, 0x81, 2, 24, 5, 2, 0, 0, 0];
    want.extend_from_slice(&38u32.to_le_bytes());
    want.extend_from_slice(&0xffff_ffc0u32.to_le_bytes());
    assert_eq!(bytes, want);
}

#[test]
fn tokens_are_sorted_and_deduplicated() {
    let mut bytes = vec![b'E', b'L', b'L', 0, 0x81, 2, 20, 5, 3, 0, 0, 0];
    for token in [0xffff_ffc0u32, 38, 0xffff_ffc0] {
        bytes.extend_from_slice(&token.to_le_bytes());
    }
    let s = ExaLogLog::from_bytes(&bytes).unwrap();
    let mut want = ExaLogLog::new(5);
    want.add_hash(u64::MAX);
    want.add_hash(0);
    assert_eq!(s.to_bytes(), want.to_bytes());
}

#[test]
fn read_bytes_are_written_again() {
    let mut s = ExaLogLogFast::new_dense(4);
    for i in 0..100u64 {
        s.add_hash(splitmix64(i));
    }
    let bytes = s.to_bytes();
    let back = ExaLogLogFast::from_bytes(&bytes).unwrap();
    assert_eq!(back.to_bytes(), bytes);
    assert!(back.martingale_weight().is_none());
}

#[test]
fn short_input_is_refused() {
    assert_eq!(packed_error(&[]), DeserializeError::TooShort { got: 0, need: 8 });
    assert_eq!(packed_error(b"ELL\0\x01\x02\x14"), DeserializeError::TooShort { got: 7, need: 8 });
    assert_eq!(
        packed_error(b"ELL\0\x81\x02\x14\x05\0\0"),
        DeserializeError::TooShort { got: 10, need: 12 }
    );
}

#[test]
fn header_is_checked_in_order() {
    assert_eq!(packed_error(b"ELM\0\x07\x09\x09\x63"), DeserializeError::BadMagic);
    assert_eq!(packed_error(b"ELL\0\x07\x09\x09\x63"), DeserializeError::UnsupportedVersion(7));
    assert_eq!(packed_error(b"ELL\0\x82\x02\x14\x05"), DeserializeError::UnsupportedVersion(0x82));
    assert_eq!(
        packed_error(b"ELL\0\x01\x03\x14\x63"),
        DeserializeError::ParameterMismatch { t: 3, d: 20 }
    );
    assert_eq!(
        packed_error(b"ELL\0\x01\x02\x18\x05"),
        DeserializeError::ParameterMismatch { t: 2, d: 24 }
    );
    assert_eq!(packed_error(b"ELL\0\x01\x02\x14\x02"), DeserializeError::InvalidPrecision(2));
    assert_eq!(packed_error(b"ELL\0\x01\x02\x14\x1b"), DeserializeError::InvalidPrecision(27));
}

#[test]
fn length_is_checked() {
    assert_eq!(
        packed_error(b"ELL\0\x01\x02\x14\x03"),
        DeserializeError::LengthMismatch { got: 8, expected: 36 }
    );
    assert_eq!(
        packed_error(b"ELL\0\x81\x02\x14\x03\x02\0\0\0\0\0\0\0"),
        DeserializeError::LengthMismatch { got: 16, expected: 20 }
    );
    assert_eq!(
        ExaLogLogFast::from_bytes(b"ELL\0\x01\x02\x18\x03").unwrap_err(),
        DeserializeError::LengthMismatch { got: 8, expected: 40 }
    );
}

#[test]
fn errors_are_worded() {
    assert_eq!(
        MergeError::PrecisionMismatch { lhs: 10, rhs: 4294967295 }.message(),
        "precision mismatch: lhs p=10, rhs p=4294967295"
    );
    assert_eq!(
        DeserializeError::TooShort { got: 0, need: 8 }.message(),
        "byte slice too short: got 0, need at least 8"
    );
    assert_eq!(DeserializeError::BadMagic.message(), "bad magic prefix");
    assert_eq!(
        DeserializeError::UnsupportedVersion(130).message(),
        "unsupported format version: 130"
    );
    assert_eq!(
        DeserializeError::ParameterMismatch { t: 2, d: 24 }.message(),
        "parameter mismatch: encoded t=2, d=24"
    );
    assert_eq!(
        DeserializeError::InvalidPrecision(27).message(),
        "invalid precision p=27 (allowed: 3..=26)"
    );
    assert_eq!(
        DeserializeError::LengthMismatch { got: 8, expected: 1036 }.message(),
        "length mismatch: got 8 bytes, expected 1036"
    );
}
