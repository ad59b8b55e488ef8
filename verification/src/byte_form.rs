//! What the byte form of a sketch looks like, byte for byte, and which bytes are
//! refused.

use vstd::arithmetic::power2::*;
use vstd::prelude::*;

use crate::bytes;
use crate::codec;
use crate::error::DeserializeError;
use crate::laws;
use crate::register;
use crate::state;
use crate::state::SketchView;
use crate::storage;
use crate::storage::AlignedRegisters;
use crate::storage::PackedRegisters;
use crate::storage::RegisterArray;

verus! {

/// The value of `n` bytes from `at` on, least significant byte first.
pub open spec fn little_endian(b: Seq<u8>, at: int, n: nat) -> int
    decreases n,
{
    if n == 0 {
        0
    } else {
        b[at] + 256 * little_endian(b, at + 1, (n - 1) as nat)
    }
}

/// The token at position `i` of a sparse form.
pub open spec fn token_at(b: Seq<u8>, i: int) -> int {
    little_endian(b, 12 + 4 * i, 4)
}

/// Every byte form starts with the letters `ELL`, a zero, the version with its sparse
/// mark, `t`, `d` and `p`; its length follows from the precision, or from the number
/// of tokens.
pub proof fn byte_form_starts_with_header<R: RegisterArray>(view: SketchView)
    requires
        view.valid(R::variant()),
    ensures
        codec::encoded::<R>(view).take(8) == seq![
            0x45u8,
            0x4cu8,
            0x4cu8,
            0u8,
            if view.tokens is Some {
                0x81u8
            } else {
                1u8
            },
            2u8,
            R::variant().d as u8,
            view.p as u8,
        ],
        match view.tokens {
            Some(tokens) => codec::encoded::<R>(view).len() == 12 + 4 * tokens.len(),
            None => 2 * codec::encoded::<R>(view).len() == 16 + pow2(view.p as nat)
                * R::variant().pair_bytes,
        },
{
    let b = codec::encoded::<R>(view);
    match view.tokens {
        Some(tokens) => {
            laws::tokens_have_an_order(tokens);
        },
        None => {
            lemma_pow2_unfold(view.p as nat);
            R::layout_len(view.registers);
        },
    }
    assert(b.take(8) =~= seq![
        0x45u8,
        0x4cu8,
        0x4cu8,
        0u8,
        if view.tokens is Some {
            0x81u8
        } else {
            1u8
        },
        2u8,
        R::variant().d as u8,
        view.p as u8,
    ]);
}

/// A word of four bytes.
proof fn lemma_four_bytes(b: Seq<u8>, at: int, x: u32)
    requires
        forall|k: int| 0 <= k < 4 ==> #[trigger] b[at + k] == bytes::le_byte(x, k),
    ensures
        little_endian(b, at, 4) == x,
{
    reveal_with_fuel(little_endian, 5);
    assert(b[at + 0] == bytes::le_byte(x, 0));
    assert(b[at + 1] == bytes::le_byte(x, 1));
    assert(b[at + 2] == bytes::le_byte(x, 2));
    assert(b[at + 3] == bytes::le_byte(x, 3));
    assert(little_endian(b, at, 4) == b[at] + 256 * (b[at + 1] + 256 * (b[at + 2] + 256
        * b[at + 3])));
}

/// In the sparse form, the number of tokens follows the header, and then the tokens,
/// in ascending order, each exactly once.
pub proof fn byte_form_lists_tokens<R: RegisterArray>(view: SketchView, tokens: Set<u32>)
    requires
        view.valid(R::variant()),
        view.tokens == Some(tokens),
    ensures
        little_endian(codec::encoded::<R>(view), 8, 4) == tokens.len(),
        forall|i: int, j: int|
            0 <= i < j < tokens.len() ==> #[trigger] token_at(codec::encoded::<R>(view), i)
                < #[trigger] token_at(codec::encoded::<R>(view), j),
        forall|t: u32| #[trigger]
            tokens.contains(t) <==> exists|i: int|
                0 <= i < tokens.len() && #[trigger] token_at(codec::encoded::<R>(view), i) == t,
{
    let b = codec::encoded::<R>(view);
    laws::tokens_have_an_order(tokens);
    let list = state::ascending(tokens);
    let n = tokens.len() as u32;
    assert forall|k: int| 0 <= k < 4 implies #[trigger] b[8 + k] == bytes::le_byte(n, k) by {}
    lemma_four_bytes(b, 8, n);
    assert forall|i: int| 0 <= i < list.len() implies #[trigger] token_at(b, i)
        == list[i] by {
        assert forall|k: int| 0 <= k < 4 implies #[trigger] b[12 + 4 * i + k] == bytes::le_byte(
            list[i],
            k,
        ) by {
            assert((4 * i + k) / 4 == i && (4 * i + k) % 4 == k);
            assert(b[12 + 4 * i + k] == bytes::le_bytes(list)[4 * i + k]);
        }
        lemma_four_bytes(b, 12 + 4 * i, list[i]);
    }
    assert forall|t: u32| #[trigger] tokens.contains(t) implies exists|i: int|
        0 <= i < tokens.len() && #[trigger] token_at(b, i) == t by {
        assert(list.to_set().contains(t));
        let i = choose|i: int| 0 <= i < list.len() && list[i] == t;
        assert(token_at(b, i) == t);
    }
    assert forall|t: u32|
        (exists|i: int|
            0 <= i < tokens.len() && #[trigger] token_at(b, i) == t) implies #[trigger] tokens.contains(t) by {
        let i = choose|i: int|
            0 <= i < tokens.len() && #[trigger] token_at(b, i) == t;
        assert(list[i] == t);
        assert(list.to_set().contains(list[i]));
    }
}

/// In the dense form of an aligned sketch, each register takes four bytes.
pub proof fn aligned_form_lists_registers(view: SketchView, i: int)
    requires
        view.valid(storage::aligned_variant()),
        view.tokens is None,
        0 <= i < view.registers.len(),
    ensures
        little_endian(codec::encoded::<AlignedRegisters>(view), 8 + 4 * i, 4)
            == view.registers[i],
{
    let b = codec::encoded::<AlignedRegisters>(view);
    let r = view.registers[i];
    assert forall|k: int| 0 <= k < 4 implies #[trigger] b[8 + 4 * i + k] == bytes::le_byte(
        r,
        k,
    ) by {
        assert((4 * i + k) / 4 == i && (4 * i + k) % 4 == k);
        assert(b[8 + 4 * i + k] == bytes::le_bytes(view.registers)[4 * i + k]);
    }
    lemma_four_bytes(b, 8 + 4 * i, r);
}

/// Seven bytes, from the first on.
proof fn lemma_seven_bytes_sum(b: Seq<u8>, at: int)
    ensures
        little_endian(b, at, 7) == b[at] + 0x100 * b[at + 1] + 0x1_0000 * b[at + 2] + 0x100_0000
            * b[at + 3] + 0x1_0000_0000 * b[at + 4] + 0x100_0000_0000 * b[at + 5]
            + 0x1_0000_0000_0000 * b[at + 6],
{
    assert(little_endian(b, at + 7, 0) == 0);
    assert(little_endian(b, at + 6, 1) == b[at + 6]);
    assert(little_endian(b, at + 5, 2) == b[at + 5] + 256 * little_endian(b, at + 6, 1));
    assert(little_endian(b, at + 4, 3) == b[at + 4] + 256 * little_endian(b, at + 5, 2));
    assert(little_endian(b, at + 3, 4) == b[at + 3] + 256 * little_endian(b, at + 4, 3));
    assert(little_endian(b, at + 2, 5) == b[at + 2] + 256 * little_endian(b, at + 3, 4));
    assert(little_endian(b, at + 1, 6) == b[at + 1] + 256 * little_endian(b, at + 2, 5));
}

/// The seven bytes of two registers.
proof fn lemma_seven_bytes(b: Seq<u8>, at: int, lo: u32, hi: u32)
    requires
        lo < 0x1000_0000,
        hi < 0x1000_0000,
        forall|k: int| 0 <= k < 7 ==> #[trigger] b[at + k] == storage::packed_byte(lo, hi, k),
    ensures
        little_endian(b, at, 7) == lo + 0x1000_0000 * hi,
{
    lemma_seven_bytes_sum(b, at);
    assert(b[at + 0] == lo as int % 256);
    assert(b[at + 1] == (lo as int / 0x100) % 256);
    assert(b[at + 2] == (lo as int / 0x1_0000) % 256);
    assert(b[at + 3] == (lo as int / 0x100_0000) % 16 + (hi as int % 16) * 16);
    assert(b[at + 4] == (hi as int / 0x10) % 256);
    assert(b[at + 5] == (hi as int / 0x1000) % 256);
    assert(b[at + 6] == (hi as int / 0x10_0000) % 256);
    lemma_low_register_parts(lo as int);
    lemma_high_register_parts(hi as int);
    lemma_join_parts(
        b[at + 0] as int,
        b[at + 1] as int,
        b[at + 2] as int,
        (lo as int / 0x100_0000) % 16,
        hi as int % 16,
        b[at + 4] as int,
        b[at + 5] as int,
        b[at + 6] as int,
    );
}

proof fn lemma_join_parts(
    l0: int,
    l1: int,
    l2: int,
    l3: int,
    h0: int,
    h1: int,
    h2: int,
    h3: int,
)
    ensures
        l0 + 0x100 * l1 + 0x1_0000 * l2 + 0x100_0000 * (l3 + h0 * 16) + 0x1_0000_0000 * h1
            + 0x100_0000_0000 * h2 + 0x1_0000_0000_0000 * h3 == (l0 + 0x100 * l1 + 0x1_0000 * l2
            + 0x100_0000 * l3) + 0x1000_0000 * (h0 + 0x10 * h1 + 0x1000 * h2 + 0x10_0000 * h3),
{
}

proof fn lemma_low_register_parts(x: int)
    requires
        0 <= x < 0x1000_0000,
    ensures
        x == x % 256 + 0x100 * ((x / 0x100) % 256) + 0x1_0000 * ((x / 0x1_0000) % 256) + 0x100_0000
            * ((x / 0x100_0000) % 16),
{
    let a = x / 0x100;
    let b = a / 0x100;
    let c = b / 0x100;
    assert(b == x / 0x1_0000);
    assert(c == x / 0x100_0000);
    assert(c % 16 == c);
}

proof fn lemma_high_register_parts(x: int)
    requires
        0 <= x < 0x1000_0000,
    ensures
        x == x % 16 + 0x10 * ((x / 0x10) % 256) + 0x1000 * ((x / 0x1000) % 256) + 0x10_0000 * ((x
            / 0x10_0000) % 256),
{
    let a = x / 0x10;
    let b = a / 0x100;
    let c = b / 0x100;
    assert(b == x / 0x1000);
    assert(c == x / 0x10_0000);
    assert(c % 256 == c);
}

/// In the dense form of a packed sketch, every two registers of 28 bits take seven
/// bytes, the first register in the lower bits.
pub proof fn packed_form_lists_registers(view: SketchView, j: int)
    requires
        view.valid(storage::packed_variant()),
        view.tokens is None,
        0 <= 2 * j,
        2 * j + 1 < view.registers.len(),
    ensures
        little_endian(codec::encoded::<PackedRegisters>(view), 8 + 7 * j, 7)
            == view.registers[2 * j] + 0x1000_0000 * view.registers[2 * j + 1],
        view.registers[2 * j] < 0x1000_0000,
        view.registers[2 * j + 1] < 0x1000_0000,
{
    let b = codec::encoded::<PackedRegisters>(view);
    let lo = view.registers[2 * j];
    let hi = view.registers[2 * j + 1];
    assert(register::top(view.registers[2 * j], 20) < 256);
    assert(register::top(view.registers[2 * j + 1], 20) < 256);
    storage::lemma_top_of_28_bits(lo);
    storage::lemma_top_of_28_bits(hi);
    assert forall|k: int| 0 <= k < 7 implies #[trigger] b[8 + 7 * j + k] == storage::packed_byte(
        lo,
        hi,
        k,
    ) by {
        assert((7 * j + k) / 7 == j && (7 * j + k) % 7 == k);
        assert(b[8 + 7 * j + k] == storage::packed_bytes(view.registers)[7 * j + k]);
    }
    lemma_seven_bytes(b, 8 + 7 * j, lo, hi);
}

/// Bytes are accepted only with a proper header.
pub proof fn accepted_bytes_have_a_header<R: RegisterArray>(b: Seq<u8>)
    requires
        codec::decode_error::<R>(b) is None,
    ensures
        b.len() >= 12,
        b[0] == 0x45 && b[1] == 0x4c && b[2] == 0x4c && b[3] == 0,
        b[4] == 1 || b[4] == 0x81,
        b[5] == 2,
        b[6] == R::variant().d,
        3 <= b[7] <= 26,
        codec::decoded::<R>(b).p == b[7],
        codec::decoded::<R>(b).tokens is Some <==> b[4] == 0x81,
{
    let start = b.take(4);
    assert(start[0] == b[0] && start[1] == b[1] && start[2] == b[2] && start[3] == b[3]);
    R::variant_bounds();
    let n = R::variant().pair_bytes as int;
    let m = pow2(b[7] as nat) as int;
    if b[7] >= 3 {
        crate::hashing::lemma_pow2_monotonic(3, b[7] as nat);
        lemma2_to64();
        assert(8 <= m * n) by (nonlinear_arith)
            requires
                8 <= m,
                1 <= n,
        ;
    }
}

/// The length of accepted bytes is settled by their first twelve: with any other length
/// they are refused, and the error tells both lengths.
pub proof fn length_is_settled_by_header<R: RegisterArray>(b: Seq<u8>, c: Seq<u8>)
    requires
        codec::decode_error::<R>(b) is None,
        c.len() >= 12,
        c.take(12) == b.take(12),
        c.len() != b.len(),
    ensures
        codec::decode_error::<R>(c) == Some(
            DeserializeError::LengthMismatch {
                got: c.len() as usize,
                expected: b.len() as usize,
            },
        ),
{
    accepted_bytes_have_a_header::<R>(b);
    assert forall|i: int| 0 <= i < 12 implies b[i] == c[i] by {
        assert(b.take(12)[i] == b[i] && c.take(12)[i] == c[i]);
    }
    assert(b.take(4) =~= c.take(4));
}

/// Whether bytes start with the letters `ELL` and a zero.
pub open spec fn has_magic(b: Seq<u8>) -> bool {
    b.len() >= 8 && b[0] == 0x45 && b[1] == 0x4c && b[2] == 0x4c && b[3] == 0
}

/// What each error says is so, and what comes before the fault is in order.
pub proof fn errors_tell_the_fault<R: RegisterArray>(b: Seq<u8>)
    requires
        b.len() <= usize::MAX,
    ensures
        match codec::decode_error::<R>(b) {
            None => true,
            Some(DeserializeError::TooShort { got, need }) => {
                &&& got == b.len() < need
                &&& need == 8 || need == 12
                &&& need == 12 ==> has_magic(b) && b[4] == 0x81
            },
            Some(DeserializeError::BadMagic) => b.len() >= 8 && !has_magic(b),
            Some(DeserializeError::UnsupportedVersion(v)) => {
                &&& has_magic(b)
                &&& v == b[4]
                &&& v != 1 && v != 0x81
            },
            Some(DeserializeError::ParameterMismatch { t, d }) => {
                &&& has_magic(b)
                &&& b[4] == 1 || b[4] == 0x81
                &&& t == b[5]
                &&& d == b[6]
                &&& t != 2 || d != R::variant().d
            },
            Some(DeserializeError::InvalidPrecision(p)) => {
                &&& has_magic(b)
                &&& b[4] == 1 || b[4] == 0x81
                &&& b[5] == 2 && b[6] == R::variant().d
                &&& p == b[7]
                &&& !(3 <= p <= 26)
            },
            Some(DeserializeError::LengthMismatch { got, expected }) => {
                &&& has_magic(b)
                &&& b[4] == 1 || b[4] == 0x81
                &&& b[5] == 2 && b[6] == R::variant().d
                &&& 3 <= b[7] <= 26
                &&& got == b.len()
                &&& b[4] == 0x81 ==> got != 12 + 4 * little_endian(b, 8, 4)
                &&& b[4] == 1 ==> 2 * got != 16 + pow2(b[7] as nat) * R::variant().pair_bytes
            },
        },
{
    let start = b.take(4);
    if b.len() >= 8 {
        assert(start[0] == b[0] && start[1] == b[1] && start[2] == b[2] && start[3] == b[3]);
        if b[0] == 0x45 && b[1] == 0x4c && b[2] == 0x4c && b[3] == 0 {
            assert(start =~= codec::magic());
        }
    }
    if b.len() >= 12 {
        reveal_with_fuel(little_endian, 5);
        assert(little_endian(b, 8, 4) == b[8] + 256 * (b[9] + 256 * (b[10] + 256 * b[11])));
        assert(codec::announced_tokens(b) == little_endian(b, 8, 4));
    }
    if 3 <= b[7] {
        lemma_pow2_unfold(b[7] as nat);
        let h = pow2((b[7] - 1) as nat) as int;
        let n = R::variant().pair_bytes as int;
        assert((2 * h) * n == 2 * (h * n)) by (nonlinear_arith);
    }
}

} // verus!
