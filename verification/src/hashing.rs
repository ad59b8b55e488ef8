//! From 64-bit hashes to register updates, and the 32-bit hash tokens of the
//! sparse representation.
//!
//! A hash selects a register with the `p` bits above its lowest two, and an
//! update value with its number of leading zeros and its lowest two bits.

use vstd::arithmetic::div_mod::*;
use vstd::arithmetic::power2::*;
use vstd::bits::*;
use vstd::prelude::*;
use vstd::std_specs::bits::*;

use crate::MAX_P;
use crate::T;

verus! {

/// Number of low hash bits that a token keeps.
pub const SPARSE_V: u32 = 26;

/// Number of token bits that hold the leading-zero count.
pub const SPARSE_NLZ_BITS: u32 = 6;

/// The register that a hash goes to, with `2^p` registers.
pub open spec fn register_index(hash: u64, p: u32) -> int {
    (hash as int / 4) % (pow2(p as nat) as int)
}

/// The number of leading zeros of a hash, of which only those above the bits
/// that select the register count.
pub open spec fn counted_zeros(hash: u64, p: u32) -> int {
    if u64_leading_zeros(hash) < 62 - p {
        u64_leading_zeros(hash)
    } else {
        62 - p
    }
}

/// The update value of a hash, with `2^p` registers.
pub open spec fn update_value(hash: u64, p: u32) -> int {
    4 * counted_zeros(hash, p) + hash as int % 4 + 1
}

/// Largest update value that a hash can have, with `2^p` registers.
pub open spec fn max_update_value(p: u32) -> int {
    4 * (63 - p)
}

/// The token of a hash: its low 26 bits, then its number of leading zeros, at
/// most 38.
pub open spec fn token_of(hash: u64) -> u32 {
    ((hash as int % 0x400_0000) * 64 + (if u64_leading_zeros(hash) < 38 {
        u64_leading_zeros(hash)
    } else {
        38
    })) as u32
}

/// The hash that stands for a token: the kept low bits, and the leading one that
/// its leading-zero count tells of.
pub open spec fn hash_of(token: u32) -> u64 {
    (token as int / 64 + (if token as int % 64 < 38 {
        pow2((63 - token as int % 64) as nat) as int
    } else {
        0
    })) as u64
}

/// A number with `n` leading zeros lies between two powers of two.
pub proof fn lemma_leading_zeros_interval(x: u64)
    ensures
        0 <= u64_leading_zeros(x) <= 64,
        x < pow2((64 - u64_leading_zeros(x)) as nat),
        x > 0 ==> u64_leading_zeros(x) < 64 && pow2((63 - u64_leading_zeros(x)) as nat) <= x,
        x == 0 ==> u64_leading_zeros(x) == 64,
    decreases x,
{
    reveal(u64_leading_zeros);
    lemma2_to64();
    axiom_u64_leading_zeros(x);
    if x > 0 {
        let n = u64_leading_zeros(x / 2);
        assert(u64_leading_zeros(x) == n - 1);
        lemma_leading_zeros_interval(x / 2);
        if x / 2 > 0 {
            lemma_pow2_unfold((64 - n) as nat);
            lemma_pow2_unfold((65 - n) as nat);
        }
    }
}

/// The interval that a number lies in determines its leading zeros.
pub proof fn lemma_leading_zeros_from_interval(x: u64, n: int)
    requires
        0 <= n < 64,
        pow2((63 - n) as nat) <= x < pow2((64 - n) as nat),
    ensures
        u64_leading_zeros(x) == n,
{
    lemma_leading_zeros_interval(x);
    lemma_pow2_pos((63 - n) as nat);
    let k = u64_leading_zeros(x);
    if k < n {
        lemma_pow2_monotonic((64 - n) as nat, (63 - k) as nat);
    } else if k > n {
        lemma_pow2_monotonic((64 - k) as nat, (63 - n) as nat);
    }
}

/// Powers of two grow with the exponent.
pub proof fn lemma_pow2_monotonic(a: nat, b: nat)
    requires
        a <= b,
    ensures
        pow2(a) <= pow2(b),
{
    if a < b {
        lemma_pow2_strictly_increases(a, b);
    }
}

/// `1 << p` is `2^p`, for every shift that a sketch makes.
pub proof fn lemma_one_shl(p: u32)
    requires
        p <= 26,
    ensures
        1u64 << p == pow2(p as nat),
        1usize << p == pow2(p as nat),
        1 <= pow2(p as nat) <= 0x400_0000,
{
    lemma_u64_pow2_no_overflow(p as nat);
    lemma_u64_shl_is_mul(1, p as u64);
    lemma_usize_pow2_no_overflow(p as nat);
    lemma_usize_shl_is_mul(1, p as usize);
    lemma_pow2_monotonic(p as nat, 26);
    lemma2_to64();
}

/// Register index and update value of a hash are in range.
pub proof fn lemma_update_bounds(hash: u64, p: u32)
    requires
        p <= 26,
    ensures
        0 <= register_index(hash, p) < pow2(p as nat),
        1 <= update_value(hash, p) <= max_update_value(p) <= 252,
{
    lemma_leading_zeros_interval(hash);
    lemma_pow2_pos(p as nat);
    lemma_mod_bound(hash as int / 4, pow2(p as nat) as int);
}

/// The register index and the update value of a hash.
pub fn hash_to_register_k(hash: u64, p: u32) -> (res: (usize, u32))
    requires
        p <= MAX_P,
    ensures
        res.0 == register_index(hash, p),
        res.1 == update_value(hash, p),
        res.0 < pow2(p as nat),
        1 <= res.1 <= max_update_value(p),
{
    proof {
        lemma_one_shl(p);
        lemma_update_bounds(hash, p);
        lemma_leading_zeros_interval(hash);
        assert(hash >> 2 == hash / 4 && hash & 3 == hash % 4) by (bit_vector);
        lemma_u64_low_bits_mask_is_mod((hash / 4) as u64, p as nat);
        assert(1u64 << 2 == 4) by (bit_vector);
        lemma2_to64();
    }
    let i: u64 = (hash >> T) & ((1u64 << p) - 1);
    let nlz: u32 = hash.leading_zeros();
    let cap: u32 = 64 - T - p;
    let counted: u32 = if nlz < cap {
        nlz
    } else {
        cap
    };
    let low_t: u64 = hash & ((1u64 << T) - 1);
    let k: u32 = counted * 4 + low_t as u32 + 1;
    (i as usize, k)
}

/// The 32-bit token of a hash.
pub fn hash_to_token(hash: u64) -> (token: u32)
    ensures
        token == token_of(hash),
{
    let low_v: u32 = (hash & 0x3ff_ffff) as u32;
    let zeros: u32 = hash.leading_zeros();
    let nlz: u32 = if zeros < 64 - SPARSE_V {
        zeros
    } else {
        64 - SPARSE_V
    };
    proof {
        lemma_leading_zeros_interval(hash);
        assert(hash & 0x3ff_ffff == hash % 0x400_0000) by (bit_vector);
        assert((low_v << 6) | nlz == low_v * 64 + nlz) by (bit_vector)
            requires
                low_v < 0x400_0000,
                nlz <= 38,
        ;
    }
    (low_v << SPARSE_NLZ_BITS) | nlz
}

/// A hash that stands for a token.
pub fn token_to_hash(token: u32) -> (hash: u64)
    ensures
        hash == hash_of(token),
{
    let low_v: u64 = (token >> SPARSE_NLZ_BITS) as u64;
    let nlz: u32 = token & 63;
    let high_bit: u64 = if nlz < 64 - SPARSE_V {
        1u64 << (63 - nlz)
    } else {
        0
    };
    proof {
        assert(token >> 6 == token / 64 && token & 63 == token % 64) by (bit_vector);
        if nlz < 38 {
            let e = (63 - nlz) as u64;
            lemma_u64_pow2_no_overflow(e as nat);
            lemma_u64_shl_is_mul(1, e);
            assert(high_bit | low_v == high_bit + low_v && high_bit + low_v <= u64::MAX)
                by (bit_vector)
                requires
                    26 <= e <= 63,
                    high_bit == 1u64 << e,
                    low_v < 0x400_0000,
            ;
        } else {
            assert(0u64 | low_v == low_v) by (bit_vector);
        }
    }
    high_bit | low_v
}

/// What a token keeps of a hash: its low 26 bits and its leading zeros.
pub proof fn lemma_token_round_trip(hash: u64)
    ensures
        hash_of(token_of(hash)) as int % 0x400_0000 == hash as int % 0x400_0000,
        u64_leading_zeros(hash_of(token_of(hash))) == u64_leading_zeros(hash),
{
    lemma_leading_zeros_interval(hash);
    lemma2_to64();
    let low = hash as int % 0x400_0000;
    let n = u64_leading_zeros(hash);
    let token = token_of(hash);
    if n < 38 {
        assert(token == low * 64 + n);
        let high = pow2((63 - n) as nat);
        lemma_u64_pow2_no_overflow((63 - n) as nat);
        lemma_pow2_monotonic(26, (63 - n) as nat);
        lemma_pow2_adds((37 - n) as nat, 26);
        let q = pow2((37 - n) as nat) as int;
        assert(high == q * 0x400_0000);
        lemma_pow2_unfold((64 - n) as nat);
        if n > 0 {
            lemma_u64_pow2_no_overflow((64 - n) as nat);
        } else {
            lemma2_to64_rest();
        }
        assert(low < 0x400_0000 <= high);
        let back = hash_of(token);
        assert(back == low + high);
        lemma_mod_multiples_vanish(q, low, 0x400_0000);
        lemma_small_mod(low as nat, 0x400_0000);
        lemma_leading_zeros_from_interval(back, n);
    } else {
        assert(token == low * 64 + 38);
        lemma_pow2_monotonic((64 - n) as nat, 26);
        lemma_small_mod(hash as nat, 0x400_0000);
        assert(hash_of(token) == hash);
    }
}

/// The hash that stands for a token has at most one bit above the low 26.
pub proof fn lemma_hash_of_shape(token: u32)
    ensures
        ({
            let h = hash_of(token);
            let low = token as int / 64;
            h == low || (26 <= 63 - u64_leading_zeros(h) && h == low + pow2(
                (63 - u64_leading_zeros(h)) as nat,
            ))
        }),
{
    lemma2_to64();
    let n = token as int % 64;
    let low = token as int / 64;
    if n < 38 {
        let e = (63 - n) as nat;
        let high = pow2(e) as int;
        lemma_u64_pow2_no_overflow(e);
        lemma_pow2_monotonic(26, e);
        lemma_pow2_unfold((e + 1) as nat);
        if n > 0 {
            lemma_u64_pow2_no_overflow((e + 1) as nat);
        } else {
            lemma2_to64_rest();
        }
        lemma_leading_zeros_from_interval(hash_of(token), n);
    }
}

/// Retokenizing the hash that stands for a token gives the same hash again.
pub proof fn lemma_retokenize(token: u32)
    ensures
        hash_of(token_of(hash_of(token))) == hash_of(token),
{
    let hash = hash_of(token);
    let low = token as int / 64;
    lemma_hash_of_shape(token);
    lemma_leading_zeros_interval(hash);
    lemma2_to64();
    let n = u64_leading_zeros(hash);
    if n < 38 {
        let high = pow2((63 - n) as nat) as int;
        lemma_pow2_monotonic(26, (63 - n) as nat);
        lemma_pow2_adds((37 - n) as nat, 26);
        let q = pow2((37 - n) as nat) as int;
        assert(hash == low + high);
        assert(high == q * 0x400_0000);
        lemma_mod_multiples_vanish(q, low, 0x400_0000);
        lemma_small_mod(low as nat, 0x400_0000);
        assert(token_of(hash) == low * 64 + n);
    } else {
        lemma_pow2_monotonic((64 - n) as nat, 26);
        lemma_small_mod(hash as nat, 0x400_0000);
        assert(token_of(hash) == hash * 64 + 38);
    }
}

} // verus!
