//! The byte format of sketches.
//!
//! Four magic bytes, a version byte whose top bit marks the sparse form, the
//! parameters `t`, `d` and `p`, and then the registers in their storage layout,
//! or the number of tokens and the tokens as little-endian 32-bit words.

use vstd::arithmetic::power2::*;
use vstd::prelude::*;

use crate::bytes;
use crate::error::DeserializeError;
use crate::hashing;
use crate::state;
use crate::state::SketchView;
use crate::storage::RegisterArray;
use crate::MAX_P;
use crate::MIN_P;
use crate::T;

verus! {

/// Format version, changed with each incompatible layout.
pub const FORMAT_VERSION: u8 = 1;

/// Bit of the version byte that marks the sparse form.
pub const FORMAT_FLAG_SPARSE: u8 = 0x80;

/// Number of bytes before the payload.
pub const HEADER_LEN: usize = 8;

/// The first four bytes: `"ELL\0"`.
pub open spec fn magic() -> Seq<u8> {
    seq![0x45u8, 0x4cu8, 0x4cu8, 0u8]
}

/// The bytes before the payload.
pub open spec fn header(version: u8, d: u32, p: u32) -> Seq<u8> {
    magic() + seq![version, T as u8, d as u8, p as u8]
}

/// The byte form of a sketch.
pub open spec fn encoded<R: RegisterArray>(view: SketchView) -> Seq<u8> {
    match view.tokens {
        Some(tokens) => header(
            (FORMAT_VERSION + FORMAT_FLAG_SPARSE) as u8,
            R::variant().d,
            view.p,
        ) + bytes::le_bytes(seq![tokens.len() as u32]) + bytes::le_bytes(state::ascending(tokens)),
        None => header(FORMAT_VERSION, R::variant().d, view.p) + R::layout(view.registers),
    }
}

/// Number of tokens that the byte form of a sparse sketch announces.
pub open spec fn announced_tokens(b: Seq<u8>) -> int {
    bytes::le_word(b, 8) as int
}

/// What is wrong with the first eight bytes, if anything.
pub open spec fn header_error(b: Seq<u8>, d: u32) -> Option<DeserializeError> {
    if b.len() < 8 {
        Some(DeserializeError::TooShort { got: b.len() as usize, need: 8 })
    } else if b.take(4) != magic() {
        Some(DeserializeError::BadMagic)
    } else if b[4] % 128 != FORMAT_VERSION {
        Some(DeserializeError::UnsupportedVersion(b[4]))
    } else if b[5] != T || b[6] != d {
        Some(DeserializeError::ParameterMismatch { t: b[5], d: b[6] })
    } else if !(MIN_P <= b[7] <= MAX_P) {
        Some(DeserializeError::InvalidPrecision(b[7]))
    } else {
        None
    }
}

/// Whether the version byte marks the sparse form.
pub open spec fn is_sparse_form(b: Seq<u8>) -> bool {
    b[4] >= FORMAT_FLAG_SPARSE
}

/// Length of the dense form, given the precision in its header.
pub open spec fn dense_len<R: RegisterArray>(b: Seq<u8>) -> int {
    8 + (pow2(b[7] as nat) * R::variant().pair_bytes) / 2
}

/// Why bytes are not the form of a sketch, if they are not. The first fault in
/// the order of the bytes is reported.
pub open spec fn decode_error<R: RegisterArray>(b: Seq<u8>) -> Option<DeserializeError> {
    if header_error(b, R::variant().d) is Some {
        header_error(b, R::variant().d)
    } else if is_sparse_form(b) {
        if b.len() < 12 {
            Some(DeserializeError::TooShort { got: b.len() as usize, need: 12 })
        } else if b.len() != 12 + 4 * announced_tokens(b) {
            Some(
                DeserializeError::LengthMismatch {
                    got: b.len() as usize,
                    expected: (12 + 4 * announced_tokens(b)) as usize,
                },
            )
        } else {
            None
        }
    } else if b.len() != dense_len::<R>(b) {
        Some(
            DeserializeError::LengthMismatch {
                got: b.len() as usize,
                expected: dense_len::<R>(b) as usize,
            },
        )
    } else {
        None
    }
}

/// The sketch whose byte form is `b`; the tokens need not be in order, nor
/// distinct.
pub open spec fn decoded<R: RegisterArray>(b: Seq<u8>) -> SketchView {
    let p = b[7] as u32;
    if is_sparse_form(b) {
        SketchView::sparse(p, bytes::le_words(b.skip(12)).to_set(), R::variant())
    } else {
        SketchView::dense(p, R::words_in(b.skip(8)), false)
    }
}

/// The bytes before the payload.
pub fn push_header(out: &mut Vec<u8>, sparse: bool, d: u32, p: u32)
    requires
        d < 256,
        p < 256,
    ensures
        final(out)@ == old(out)@ + header(
            if sparse {
                (FORMAT_VERSION + FORMAT_FLAG_SPARSE) as u8
            } else {
                FORMAT_VERSION
            },
            d,
            p,
        ),
{
    let ghost before = out@;
    out.push(0x45);
    out.push(0x4c);
    out.push(0x4c);
    out.push(0);
    if sparse {
        out.push(FORMAT_VERSION + FORMAT_FLAG_SPARSE);
    } else {
        out.push(FORMAT_VERSION);
    }
    out.push(T as u8);
    out.push(d as u8);
    out.push(p as u8);
    assert(out@ =~= before + header(out@[before.len() as int + 4], d, p));
}

/// Check the bytes before the payload; the result is the form and the precision.
pub fn parse_header(bytes: &[u8], d: u32) -> (res: Result<(bool, u32), DeserializeError>)
    ensures
        match res {
            Ok((sparse, p)) => {
                &&& header_error(bytes@, d) is None
                &&& sparse == is_sparse_form(bytes@)
                &&& p == bytes@[7]
                &&& MIN_P <= p <= MAX_P
                &&& bytes@.len() >= 8
            },
            Err(error) => header_error(bytes@, d) == Some(error),
        },
{
    if bytes.len() < HEADER_LEN {
        return Err(DeserializeError::TooShort { got: bytes.len(), need: HEADER_LEN });
    }
    let matches: bool = bytes[0] == 0x45 && bytes[1] == 0x4c && bytes[2] == 0x4c && bytes[3] == 0;
    proof {
        let start = bytes@.take(4);
        assert(start[0] == bytes@[0] && start[1] == bytes@[1] && start[2] == bytes@[2] && start[3]
            == bytes@[3]);
        if matches {
            assert(start =~= magic());
        } else {
            assert(start != magic());
        }
    }
    if !matches {
        return Err(DeserializeError::BadMagic);
    }
    let version: u8 = bytes[4];
    if version % 128 != FORMAT_VERSION {
        return Err(DeserializeError::UnsupportedVersion(version));
    }
    let t: u8 = bytes[5];
    let encoded_d: u8 = bytes[6];
    if t as u32 != T || encoded_d as u32 != d {
        return Err(DeserializeError::ParameterMismatch { t, d: encoded_d });
    }
    let p: u8 = bytes[7];
    if (p as u32) < MIN_P || p as u32 > MAX_P {
        return Err(DeserializeError::InvalidPrecision(p));
    }
    Ok((version >= FORMAT_FLAG_SPARSE, p as u32))
}

/// Check the length of a sparse form and read its tokens.
pub fn parse_tokens(bytes: &[u8]) -> (res: Result<Vec<u32>, DeserializeError>)
    requires
        bytes@.len() >= 8,
    ensures
        match res {
            Ok(list) => {
                &&& bytes@.len() >= 12
                &&& bytes@.len() == 12 + 4 * announced_tokens(bytes@)
                &&& list@ == bytes::le_words(bytes@.skip(12))
                &&& list@.len() <= u32::MAX
            },
            Err(error) => if bytes@.len() < 12 {
                error == (DeserializeError::TooShort { got: bytes@.len() as usize, need: 12 })
            } else {
                &&& bytes@.len() != 12 + 4 * announced_tokens(bytes@)
                &&& error == (DeserializeError::LengthMismatch {
                    got: bytes@.len() as usize,
                    expected: (12 + 4 * announced_tokens(bytes@)) as usize,
                })
            },
        },
{
    if bytes.len() < HEADER_LEN + 4 {
        return Err(DeserializeError::TooShort { got: bytes.len(), need: HEADER_LEN + 4 });
    }
    let count: u32 = bytes::read_word(bytes, HEADER_LEN);
    let expected: u64 = 12 + 4 * (count as u64);
    if bytes.len() as u64 != expected {
        return Err(
            DeserializeError::LengthMismatch {
                got: bytes.len(),
                expected: #[verifier::truncate] (expected as usize),
            },
        );
    }
    Ok(bytes::read_words(bytes, HEADER_LEN + 4))
}

/// Check the length of a dense form and read its registers.
pub fn parse_registers<R: RegisterArray>(bytes: &[u8], p: u32) -> (res: Result<
    R,
    DeserializeError,
>)
    requires
        bytes@.len() >= 8,
        p == bytes@[7],
        MIN_P <= p <= MAX_P,
    ensures
        match res {
            Ok(registers) => {
                &&& bytes@.len() == dense_len::<R>(bytes@)
                &&& registers.words() == R::words_in(bytes@.skip(8))
                &&& registers.words().len() == pow2(p as nat)
            },
            Err(error) => {
                &&& bytes@.len() != dense_len::<R>(bytes@)
                &&& error == (DeserializeError::LengthMismatch {
                    got: bytes@.len() as usize,
                    expected: dense_len::<R>(bytes@) as usize,
                })
            },
        },
{
    proof {
        hashing::lemma_one_shl(p);
        R::variant_bounds();
        let m = pow2(p as nat) as int;
        let b = R::variant().pair_bytes as int;
        assert(m * b <= 0x400_0000 * 8) by (nonlinear_arith)
            requires
                0 <= m <= 0x400_0000,
                0 <= b <= 8,
        ;
    }
    let size: usize = R::storage_bytes(p);
    let expected: usize = HEADER_LEN + size;
    if bytes.len() != expected {
        return Err(DeserializeError::LengthMismatch { got: bytes.len(), expected });
    }
    Ok(R::parse(bytes, HEADER_LEN, p))
}

} // verus!
