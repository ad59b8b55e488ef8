//! Errors of the public operations.

use vstd::prelude::*;
use vstd::string::StringExecFns;

use crate::text;
use crate::text::decimal;
use crate::MAX_P;
use crate::MIN_P;

verus! {

/// Error returned when two sketches cannot be merged.
#[derive(Debug, PartialEq, Eq, Structural)]
pub enum MergeError {
    /// The two sketches were created with different `p` values.
    PrecisionMismatch {
        /// Precision of `self`.
        lhs: u32,
        /// Precision of `other`.
        rhs: u32,
    },
}

/// Error returned when deserializing a byte slice into a sketch.
#[derive(Debug, PartialEq, Eq, Structural)]
pub enum DeserializeError {
    /// Byte slice is shorter than the minimum header length.
    TooShort {
        /// Bytes received.
        got: usize,
        /// Bytes required (at minimum).
        need: usize,
    },
    /// Magic prefix did not match.
    BadMagic,
    /// Format version is not supported.
    UnsupportedVersion(u8),
    /// The encoded `t` or `d` parameter does not match what the sketch type
    /// expects. `ExaLogLog` accepts `(t=2, d=20)`; `ExaLogLogFast` accepts
    /// `(t=2, d=24)`.
    ParameterMismatch {
        /// Encoded `t`.
        t: u8,
        /// Encoded `d`.
        d: u8,
    },
    /// Encoded `p` is outside the supported range.
    InvalidPrecision(u8),
    /// Length of the byte slice does not match what its header implies.
    LengthMismatch {
        /// Bytes received.
        got: usize,
        /// Bytes expected, given the header.
        expected: usize,
    },
}

impl MergeError {
    /// Wording of [`Self::message`].
    pub open spec fn wording(&self) -> Seq<char> {
        match self {
            MergeError::PrecisionMismatch { lhs, rhs } => "precision mismatch: lhs p="@ + decimal(
                *lhs as nat,
            ) + ", rhs p="@ + decimal(*rhs as nat),
        }
    }

    /// The error in words.
    pub fn message(&self) -> (message: String)
        ensures
            message@ == self.wording(),
    {
        let mut out = String::new();
        match self {
            MergeError::PrecisionMismatch { lhs, rhs } => {
                out.append("precision mismatch: lhs p=");
                text::push_decimal(&mut out, *lhs as u64);
                out.append(", rhs p=");
                text::push_decimal(&mut out, *rhs as u64);
            },
        }
        assert(out@ =~= self.wording());
        out
    }
}

impl DeserializeError {
    /// Wording of [`Self::message`].
    pub open spec fn wording(&self) -> Seq<char> {
        match self {
            DeserializeError::TooShort { got, need } => "byte slice too short: got "@ + decimal(
                *got as nat,
            ) + ", need at least "@ + decimal(*need as nat),
            DeserializeError::BadMagic => "bad magic prefix"@,
            DeserializeError::UnsupportedVersion(v) => "unsupported format version: "@ + decimal(
                *v as nat,
            ),
            DeserializeError::ParameterMismatch { t, d } => "parameter mismatch: encoded t="@
                + decimal(*t as nat) + ", d="@ + decimal(*d as nat),
            DeserializeError::InvalidPrecision(p) => "invalid precision p="@ + decimal(*p as nat)
                + " (allowed: "@ + decimal(MIN_P as nat) + "..="@ + decimal(MAX_P as nat) + ")"@,
            DeserializeError::LengthMismatch { got, expected } => "length mismatch: got "@
                + decimal(*got as nat) + " bytes, expected "@ + decimal(*expected as nat),
        }
    }

    /// The error in words.
    pub fn message(&self) -> (message: String)
        ensures
            message@ == self.wording(),
    {
        let mut out = String::new();
        match self {
            DeserializeError::TooShort { got, need } => {
                out.append("byte slice too short: got ");
                text::push_decimal(&mut out, *got as u64);
                out.append(", need at least ");
                text::push_decimal(&mut out, *need as u64);
            },
            DeserializeError::BadMagic => {
                out.append("bad magic prefix");
            },
            DeserializeError::UnsupportedVersion(v) => {
                out.append("unsupported format version: ");
                text::push_decimal(&mut out, *v as u64);
            },
            DeserializeError::ParameterMismatch { t, d } => {
                out.append("parameter mismatch: encoded t=");
                text::push_decimal(&mut out, *t as u64);
                out.append(", d=");
                text::push_decimal(&mut out, *d as u64);
            },
            DeserializeError::InvalidPrecision(p) => {
                out.append("invalid precision p=");
                text::push_decimal(&mut out, *p as u64);
                out.append(" (allowed: ");
                text::push_decimal(&mut out, MIN_P as u64);
                out.append("..=");
                text::push_decimal(&mut out, MAX_P as u64);
                out.append(")");
            },
            DeserializeError::LengthMismatch { got, expected } => {
                out.append("length mismatch: got ");
                text::push_decimal(&mut out, *got as u64);
                out.append(" bytes, expected ");
                text::push_decimal(&mut out, *expected as u64);
            },
        }
        assert(out@ =~= self.wording());
        out
    }
}

/// Messages name the numbers that errors carry, in decimal notation, whatever they are.
pub proof fn messages_name_the_numbers(a: u32, b: u32, m: usize, n: usize, x: u8, y: u8)
    ensures
        (MergeError::PrecisionMismatch { lhs: a, rhs: b }).wording() == "precision mismatch: lhs p="@
            + decimal(a as nat) + ", rhs p="@ + decimal(b as nat),
        (DeserializeError::TooShort { got: m, need: n }).wording() == "byte slice too short: got "@
            + decimal(m as nat) + ", need at least "@ + decimal(n as nat),
        DeserializeError::UnsupportedVersion(x).wording() == "unsupported format version: "@
            + decimal(x as nat),
        (DeserializeError::ParameterMismatch { t: x, d: y }).wording()
            == "parameter mismatch: encoded t="@ + decimal(x as nat) + ", d="@ + decimal(y as nat),
        DeserializeError::InvalidPrecision(x).wording() == "invalid precision p="@ + decimal(
            x as nat,
        ) + " (allowed: "@ + decimal(3) + "..="@ + decimal(26) + ")"@,
        (DeserializeError::LengthMismatch { got: m, expected: n }).wording()
            == "length mismatch: got "@ + decimal(m as nat) + " bytes, expected "@ + decimal(
            n as nat,
        ),
{
}

} // verus!
