//! Dense register storage: the packed 28-bit layout and the aligned 32-bit one.

use vstd::arithmetic::power2::*;
use vstd::prelude::*;

use crate::bytes;
use crate::fast;
use crate::hashing;
use crate::packed;
use crate::register;
use crate::state;
use crate::state::Variant;
use crate::MAX_P;

verus! {

/// A fixed-size array of registers, with its byte layout.
pub trait RegisterArray: Sized {
    /// The register values.
    spec fn words(&self) -> Seq<u32>;

    /// The parameters of the sketch variant that uses this storage.
    spec fn variant() -> Variant;

    /// The bytes that register values are written as.
    spec fn layout(words: Seq<u32>) -> Seq<u8>;

    /// The register values that bytes in this layout hold.
    spec fn words_in(bytes: Seq<u8>) -> Seq<u32>;

    /// The window fits the word, and storage is counted in whole bytes.
    proof fn variant_bounds()
        ensures
            1 <= Self::variant().d <= 24,
            1 <= Self::variant().pair_bytes <= 8,
    ;

    /// Largest values take eight bits.
    proof fn words_fit(&self)
        ensures
            forall|i: int|
                0 <= i < self.words().len() ==> register::top(
                    #[trigger] self.words()[i],
                    Self::variant().d,
                ) < 256,
    ;

    /// A layout has `pair_bytes` bytes for every two registers.
    proof fn layout_len(words: Seq<u32>)
        requires
            words.len() % 2 == 0,
        ensures
            2 * Self::layout(words).len() == words.len() * Self::variant().pair_bytes,
    ;

    /// Register values can be read back from their layout.
    proof fn layout_words(words: Seq<u32>)
        requires
            words.len() % 2 == 0,
            forall|i: int|
                0 <= i < words.len() ==> register::top(#[trigger] words[i], Self::variant().d) < 256,
        ensures
            Self::words_in(Self::layout(words)) == words,
    ;

    /// Register values read from bytes have these bytes as their layout.
    proof fn words_layout(bytes: Seq<u8>, pairs: nat)
        requires
            bytes.len() == pairs * Self::variant().pair_bytes,
        ensures
            Self::words_in(bytes).len() == 2 * pairs,
            Self::layout(Self::words_in(bytes)) == bytes,
    ;

    /// Number of window bits per register.
    fn d() -> (d: u32)
        ensures
            d == Self::variant().d,
    ;

    /// Number of tokens up to which a sketch stays sparse.
    fn sparse_capacity(p: u32) -> (n: usize)
        requires
            p <= MAX_P,
        ensures
            n == Self::variant().break_even(p),
    ;

    /// All registers empty.
    fn zeroed(p: u32) -> (res: Self)
        requires
            1 <= p <= MAX_P,
        ensures
            res.words() == state::empty_registers(p),
    ;

    /// The value of register `i`.
    fn read(&self, i: usize) -> (r: u32)
        requires
            i < self.words().len(),
        ensures
            r == self.words()[i as int],
    ;

    /// Set register `i`, and no other.
    fn write(&mut self, i: usize, value: u32)
        requires
            i < old(self).words().len(),
            register::top(value, Self::variant().d) < 256,
        ensures
            final(self).words() == old(self).words().update(i as int, value),
    ;

    /// A copy.
    fn duplicate(&self) -> (res: Self)
        ensures
            res.words() == self.words(),
    ;

    /// Number of bytes that `2^p` registers take.
    fn storage_bytes(p: u32) -> (n: usize)
        requires
            1 <= p <= MAX_P,
        ensures
            2 * n == pow2(p as nat) * Self::variant().pair_bytes,
    ;

    /// Append the layout to `out`.
    fn append_to(&self, out: &mut Vec<u8>)
        requires
            self.words().len() % 2 == 0,
        ensures
            final(out)@ == old(out)@ + Self::layout(self.words()),
    ;

    /// Read `2^p` registers from the layout that starts at `from`.
    fn parse(bytes: &[u8], from: usize, p: u32) -> (res: Self)
        requires
            1 <= p <= MAX_P,
            from <= bytes@.len(),
            2 * (bytes@.len() - from) == pow2(p as nat) * Self::variant().pair_bytes,
        ensures
            res.words().len() == pow2(p as nat),
            res.words() == Self::words_in(bytes@.skip(from as int)),
    ;
}

/// Registers of 28 bits, packed as two registers per 7 bytes.
#[derive(Debug)]
pub struct PackedRegisters {
    bytes: Vec<u8>,
}

/// The register with even index in the 7 bytes from `at` on.
pub open spec fn even_word(b: Seq<u8>, at: int) -> int {
    b[at] + b[at + 1] * 0x100 + b[at + 2] * 0x1_0000 + (b[at + 3] % 16) * 0x100_0000
}

/// The register with odd index in the 7 bytes from `at` on.
pub open spec fn odd_word(b: Seq<u8>, at: int) -> int {
    b[at + 3] / 16 + b[at + 4] * 0x10 + b[at + 5] * 0x1000 + b[at + 6] * 0x10_0000
}

/// Register `i` of a packed byte sequence.
pub open spec fn packed_word(b: Seq<u8>, i: int) -> u32 {
    if i % 2 == 0 {
        even_word(b, (i / 2) * 7) as u32
    } else {
        odd_word(b, (i / 2) * 7) as u32
    }
}

/// The registers of a packed byte sequence.
pub open spec fn packed_words(b: Seq<u8>) -> Seq<u32> {
    Seq::new((b.len() / 7) * 2, |i: int| packed_word(b, i))
}

/// The packed form of register values: two registers of 28 bits make one
/// little-endian number of 7 bytes.
pub open spec fn packed_bytes(words: Seq<u32>) -> Seq<u8> {
    Seq::new(
        (words.len() / 2) * 7,
        |k: int| packed_byte(words[(k / 7) * 2], words[(k / 7) * 2 + 1], k % 7),
    )
}

/// Byte `k` of the 7 bytes that hold the registers `lo` and `hi`.
pub open spec fn packed_byte(lo: u32, hi: u32, k: int) -> u8 {
    (if k == 0 {
        lo as int % 256
    } else if k == 1 {
        (lo as int / 0x100) % 256
    } else if k == 2 {
        (lo as int / 0x1_0000) % 256
    } else if k == 3 {
        (lo as int / 0x100_0000) % 16 + (hi as int % 16) * 16
    } else if k == 4 {
        (hi as int / 0x10) % 256
    } else if k == 5 {
        (hi as int / 0x1000) % 256
    } else {
        (hi as int / 0x10_0000) % 256
    }) as u8
}

/// Parameters of the packed variant.
pub open spec fn packed_variant() -> Variant {
    Variant { d: 20, pair_bytes: 7 }
}

impl PackedRegisters {
    proof fn lemma_word_fits(b: Seq<u8>, i: int)
        ensures
            packed_word(b, i) < 0x1000_0000,
    {
    }
}

/// A word of 28 bits has a largest value of 8 bits above its 20 window bits.
pub proof fn lemma_top_of_28_bits(w: u32)
    by (bit_vector)
    ensures
        w < 0x1000_0000 <==> w >> 20 < 256,
{
}

/// The largest value of a 32-bit word with 24 window bits has 8 bits.
proof fn lemma_top_of_32_bits(w: u32)
    by (bit_vector)
    ensures
        w >> 24 < 256,
{
}

impl RegisterArray for PackedRegisters {
    closed spec fn words(&self) -> Seq<u32> {
        packed_words(self.bytes@)
    }

    open spec fn words_in(bytes: Seq<u8>) -> Seq<u32> {
        packed_words(bytes)
    }

    open spec fn variant() -> Variant {
        packed_variant()
    }

    open spec fn layout(words: Seq<u32>) -> Seq<u8> {
        packed_bytes(words)
    }

    proof fn variant_bounds() {
    }

    proof fn words_fit(&self) {
        assert forall|i: int| 0 <= i < self.words().len() implies register::top(
            #[trigger] self.words()[i],
            20,
        ) < 256 by {
            Self::lemma_word_fits(self.bytes@, i);
            lemma_top_of_28_bits(self.words()[i]);
        }
    }

    proof fn layout_len(words: Seq<u32>) {
    }

    proof fn layout_words(words: Seq<u32>) {
        let b = packed_bytes(words);
        assert forall|i: int| 0 <= i < words.len() implies packed_words(b)[i] == words[i] by {
            let c = i / 2;
            let lo = words[c * 2];
            let hi = words[c * 2 + 1];
            assert(register::top(words[c * 2], 20) < 256);
            assert(register::top(words[c * 2 + 1], 20) < 256);
            lemma_top_of_28_bits(lo);
            lemma_top_of_28_bits(hi);
            lemma_packed_pair(words, c);
            lemma_even_bytes(lo);
            lemma_odd_bytes(hi);
        }
        assert(packed_words(b) =~= words);
    }

    proof fn words_layout(bytes: Seq<u8>, pairs: nat) {
        lemma_pack_unpack(bytes, packed_words(bytes));
        assert(packed_bytes(packed_words(bytes)) =~= bytes);
    }

    fn d() -> (d: u32) {
        20
    }

    fn sparse_capacity(p: u32) -> (n: usize) {
        packed::sparse_capacity(p)
    }

    fn zeroed(p: u32) -> (res: Self) {
        let n: usize = Self::storage_bytes(p);
        let bytes: Vec<u8> = vec![0u8; n];
        let res = PackedRegisters { bytes };
        proof {
            lemma_pow2_unfold(p as nat);
            assert(res.words() =~= state::empty_registers(p));
        }
        res
    }

    fn read(&self, i: usize) -> (r: u32) {
        proof {
            lemma_pair_in_bounds(self.bytes@.len(), i as int);
            assert(self.bytes.len() == self.bytes@.len());
        }
        let at: usize = (i / 2) * 7;
        let b = &self.bytes;
        if i % 2 == 0 {
            b[at] as u32 + b[at + 1] as u32 * 0x100 + b[at + 2] as u32 * 0x1_0000 + (b[at + 3]
                % 16) as u32 * 0x100_0000
        } else {
            (b[at + 3] / 16) as u32 + b[at + 4] as u32 * 0x10 + b[at + 5] as u32 * 0x1000 + b[at
                + 6] as u32 * 0x10_0000
        }
    }

    fn write(&mut self, i: usize, value: u32) {
        proof {
            lemma_top_of_28_bits(value);
            lemma_pair_in_bounds(self.bytes@.len(), i as int);
            assert(self.bytes.len() == self.bytes@.len());
        }
        let at: usize = (i / 2) * 7;
        let shared: u8 = self.bytes[at + 3];
        if i % 2 == 0 {
            self.bytes[at] = (value % 0x100) as u8;
            self.bytes[at + 1] = (value / 0x100 % 0x100) as u8;
            self.bytes[at + 2] = (value / 0x1_0000 % 0x100) as u8;
            self.bytes[at + 3] = shared / 16 * 16 + (value / 0x100_0000) as u8;
        } else {
            self.bytes[at + 3] = shared % 16 + (value % 16) as u8 * 16;
            self.bytes[at + 4] = (value / 0x10 % 0x100) as u8;
            self.bytes[at + 5] = (value / 0x1000 % 0x100) as u8;
            self.bytes[at + 6] = (value / 0x10_0000) as u8;
        }
        proof {
            let b0 = old(self).bytes@;
            let b1 = self.bytes@;
            assert forall|j: int| 0 <= j < (b1.len() / 7) * 2 implies #[trigger] packed_word(b1, j)
                == if j == i { value } else { packed_word(b0, j) } by {
                let c = (j / 2) * 7;
                if j / 2 != i / 2 {
                    assert(c >= at + 7 || c + 7 <= at);
                    lemma_same_pair(b0, b1, c);
                } else {
                    assert(c == at);
                    if i % 2 == 0 {
                        lemma_even_bytes(value);
                        assert(b1[at + 3] / 16 == shared / 16);
                    } else {
                        lemma_odd_bytes(value);
                        assert(b1[at + 3] % 16 == shared % 16);
                    }
                }
            }
            assert(self.words() =~= old(self).words().update(i as int, value));
        }
    }

    fn duplicate(&self) -> (res: Self) {
        let bytes = self.bytes.clone();
        assert(bytes@ =~= self.bytes@);
        PackedRegisters { bytes }
    }

    fn storage_bytes(p: u32) -> (n: usize) {
        packed::dense_storage_bytes(p)
    }

    fn append_to(&self, out: &mut Vec<u8>) {
        let ghost before = out@;
        let ghost words = self.words();
        proof {
            assert(self.bytes@.subrange(0, packed_bytes(words).len() as int) =~= packed_bytes(words))
                by {
                lemma_pack_unpack(self.bytes@, words);
            }
        }
        let n: usize = self.bytes.len() / 7 * 7;
        let mut k: usize = 0;
        while k < n
            invariant
                k <= n <= self.bytes@.len(),
                out@ == before + self.bytes@.subrange(0, k as int),
            decreases n - k,
        {
            out.push(self.bytes[k]);
            k = k + 1;
        }
        assert(out@ =~= before + packed_bytes(words));
    }

    fn parse(bytes: &[u8], from: usize, p: u32) -> (res: Self) {
        let mut copy: Vec<u8> = Vec::new();
        let mut k: usize = from;
        while k < bytes.len()
            invariant
                from <= k <= bytes@.len(),
                copy@ == bytes@.subrange(from as int, k as int),
            decreases bytes@.len() - k,
        {
            copy.push(bytes[k]);
            k = k + 1;
        }
        let res = PackedRegisters { bytes: copy };
        proof {
            lemma_pow2_unfold(p as nat);
            assert(res.bytes@ =~= bytes@.skip(from as int));
        }
        res
    }
}

/// Registers of 32 bits, one word each.
#[derive(Debug)]
pub struct AlignedRegisters {
    words: Vec<u32>,
}

/// Parameters of the aligned variant.
pub open spec fn aligned_variant() -> Variant {
    Variant { d: 24, pair_bytes: 8 }
}

impl RegisterArray for AlignedRegisters {
    closed spec fn words(&self) -> Seq<u32> {
        self.words@
    }

    open spec fn variant() -> Variant {
        aligned_variant()
    }

    open spec fn layout(words: Seq<u32>) -> Seq<u8> {
        bytes::le_bytes(words)
    }

    open spec fn words_in(bytes: Seq<u8>) -> Seq<u32> {
        bytes::le_words(bytes)
    }

    proof fn variant_bounds() {
    }

    proof fn words_fit(&self) {
        assert forall|i: int| 0 <= i < self.words().len() implies register::top(
            #[trigger] self.words()[i],
            24,
        ) < 256 by {
            lemma_top_of_32_bits(self.words()[i]);
        }
    }

    proof fn layout_len(words: Seq<u32>) {
    }

    proof fn layout_words(words: Seq<u32>) {
        bytes::lemma_words_of_bytes(words);
    }

    proof fn words_layout(bytes: Seq<u8>, pairs: nat) {
        bytes::lemma_bytes_of_words(bytes);
    }

    fn d() -> (d: u32) {
        24
    }

    fn sparse_capacity(p: u32) -> (n: usize) {
        fast::sparse_capacity(p)
    }

    fn zeroed(p: u32) -> (res: Self) {
        proof {
            hashing::lemma_one_shl(p);
        }
        let words: Vec<u32> = vec![0u32; 1usize << p];
        let res = AlignedRegisters { words };
        assert(res.words() =~= state::empty_registers(p));
        res
    }

    fn read(&self, i: usize) -> (r: u32) {
        self.words[i]
    }

    fn write(&mut self, i: usize, value: u32) {
        self.words[i] = value;
    }

    fn duplicate(&self) -> (res: Self) {
        let words = self.words.clone();
        assert(words@ =~= self.words@);
        AlignedRegisters { words }
    }

    fn storage_bytes(p: u32) -> (n: usize) {
        proof {
            hashing::lemma_one_shl(p);
        }
        (1usize << p) * 4
    }

    fn append_to(&self, out: &mut Vec<u8>) {
        bytes::push_words(out, &self.words);
    }

    fn parse(bytes: &[u8], from: usize, p: u32) -> (res: Self) {
        let words = bytes::read_words(bytes, from);
        AlignedRegisters { words }
    }
}

/// The 7 bytes of each register pair lie within the storage.
proof fn lemma_pair_in_bounds(len: nat, i: int)
    requires
        0 <= i < (len / 7) * 2,
    ensures
        0 <= (i / 2) * 7,
        (i / 2) * 7 + 7 <= len,
{
}

/// Registers are read from their own 7 bytes only.
proof fn lemma_same_pair(a: Seq<u8>, b: Seq<u8>, at: int)
    requires
        forall|k: int| at <= k < at + 7 ==> a[k] == b[k],
    ensures
        even_word(a, at) == even_word(b, at),
        odd_word(a, at) == odd_word(b, at),
{
}

/// The bytes of a register with even index.
proof fn lemma_even_bytes(value: u32)
    by (bit_vector)
    requires
        value < 0x1000_0000,
    ensures
        value == value % 0x100 + (value / 0x100 % 0x100) * 0x100 + (value / 0x1_0000 % 0x100)
            * 0x1_0000 + (value / 0x100_0000) * 0x100_0000,
        value / 0x100_0000 < 16,
{
}

/// The bytes of a register with odd index.
proof fn lemma_odd_bytes(value: u32)
    by (bit_vector)
    requires
        value < 0x1000_0000,
    ensures
        value == value % 16 + (value / 0x10 % 0x100) * 0x10 + (value / 0x1000 % 0x100) * 0x1000 + (
        value / 0x10_0000) * 0x10_0000,
        value / 0x10_0000 < 256,
{
}

/// The 7 bytes of a pair are those that its two registers are packed into.
proof fn lemma_pair_bytes(b0: u8, b1: u8, b2: u8, b3: u8, b4: u8, b5: u8, b6: u8, lo: u32, hi: u32)
    requires
        lo == b0 + b1 * 0x100 + b2 * 0x1_0000 + (b3 % 16) * 0x100_0000,
        hi == b3 / 16 + b4 * 0x10 + b5 * 0x1000 + b6 * 0x10_0000,
    ensures
        packed_byte(lo, hi, 0) == b0,
        packed_byte(lo, hi, 1) == b1,
        packed_byte(lo, hi, 2) == b2,
        packed_byte(lo, hi, 3) == b3,
        packed_byte(lo, hi, 4) == b4,
        packed_byte(lo, hi, 5) == b5,
        packed_byte(lo, hi, 6) == b6,
{
    assert(lo as int / 0x100_0000 == b3 % 16);
    assert(lo as int / 0x1_0000 == b2 + (b3 % 16) * 0x100);
    assert(lo as int / 0x100 == b1 + b2 * 0x100 + (b3 % 16) * 0x1_0000);
    assert(hi as int / 0x10_0000 == b6);
    assert(hi as int / 0x1000 == b5 + b6 * 0x100);
    assert(hi as int / 0x10 == b4 + b5 * 0x100 + b6 * 0x1_0000);
    assert(hi as int % 16 == b3 / 16);
}

/// The 7 bytes that a pair of registers is packed into.
proof fn lemma_packed_pair(words: Seq<u32>, c: int)
    requires
        words.len() % 2 == 0,
        0 <= c < words.len() / 2,
    ensures
        forall|k: int|
            0 <= k < 7 ==> #[trigger] packed_bytes(words)[c * 7 + k] == packed_byte(
                words[c * 2],
                words[c * 2 + 1],
                k,
            ),
        packed_bytes(words)[c * 7] == packed_byte(words[c * 2], words[c * 2 + 1], 0),
{
    assert forall|k: int| 0 <= k < 7 implies #[trigger] packed_bytes(words)[c * 7 + k]
        == packed_byte(words[c * 2], words[c * 2 + 1], k) by {
        assert((c * 7 + k) / 7 == c && (c * 7 + k) % 7 == k);
    }
    assert(packed_bytes(words)[c * 7 + 0] == packed_byte(words[c * 2], words[c * 2 + 1], 0));
}

/// Packing the registers of a packed byte sequence gives back its bytes.
pub proof fn lemma_pack_unpack(b: Seq<u8>, words: Seq<u32>)
    requires
        words == packed_words(b),
    ensures
        packed_bytes(words).len() == (b.len() / 7) * 7,
        forall|k: int| 0 <= k < (b.len() / 7) * 7 ==> #[trigger] packed_bytes(words)[k] == b[k],
{
    assert forall|k: int| 0 <= k < (b.len() / 7) * 7 implies #[trigger] packed_bytes(words)[k]
        == b[k] by {
        let c = k / 7;
        let at = c * 7;
        let lo = words[c * 2];
        let hi = words[c * 2 + 1];
        assert(lo == packed_word(b, c * 2));
        assert(hi == packed_word(b, c * 2 + 1));
        assert((c * 2) / 2 == c && (c * 2 + 1) / 2 == c);
        lemma_pair_bytes(
            b[at],
            b[at + 1],
            b[at + 2],
            b[at + 3],
            b[at + 4],
            b[at + 5],
            b[at + 6],
            lo,
            hi,
        );
        assert(k == at + k % 7);
        assert(packed_bytes(words)[k] == packed_byte(lo, hi, k % 7));
    }
}

} // verus!
