//! The mathematical model of a sketch: register arrays as functions of the
//! hashes that went into them, and the state that a sketch has after each
//! operation.

use vstd::arithmetic::power2::*;
use vstd::prelude::*;
use vstd::std_specs::bits::*;

use crate::error::MergeError;
use crate::hashing;
use crate::register;
use crate::MAX_P;
use crate::MIN_P;

verus! {

/// The update values that `hashes` bring to register `i`.
pub open spec fn values_at(hashes: Set<u64>, p: u32, i: int) -> Set<int> {
    Set::new(
        |v: int|
            exists|hash: u64| #[trigger]
                hashes.contains(hash) && hashing::register_index(hash, p) == i
                    && hashing::update_value(hash, p) == v,
    )
}

/// `2^p` empty registers.
pub open spec fn empty_registers(p: u32) -> Seq<u32> {
    Seq::new(pow2(p as nat), |i: int| 0u32)
}

/// The registers after `hashes` have been inserted.
pub open spec fn absorb_hashes(registers: Seq<u32>, hashes: Set<u64>, p: u32, d: u32) -> Seq<u32> {
    Seq::new(
        registers.len(),
        |i: int| register::absorb(registers[i], d, values_at(hashes, p, i)),
    )
}

/// The registers of a sketch into which exactly `hashes` have been inserted.
pub open spec fn registers_of(hashes: Set<u64>, p: u32, d: u32) -> Seq<u32> {
    absorb_hashes(empty_registers(p), hashes, p, d)
}

/// The hashes that stand for a set of tokens.
pub open spec fn token_hashes(tokens: Set<u32>) -> Set<u64> {
    tokens.map(|token: u32| hashing::hash_of(token))
}

/// The tokens of a set of hashes.
pub open spec fn hash_tokens(hashes: Set<u64>) -> Set<u32> {
    hashes.map(|hash: u64| hashing::token_of(hash))
}

/// Two register arrays merged register by register.
pub open spec fn merge_registers(a: Seq<u32>, b: Seq<u32>, d: u32) -> Seq<u32> {
    Seq::new(a.len(), |i: int| register::merged(a[i], b[i], d))
}

/// Smallest update value of a hash without a one above the bits that select the
/// register: its leading zeros are cut off by the precision.
pub open spec fn first_cut_value(p: u32) -> int {
    4 * (62 - p) + 1
}

/// Number of bits needed to write `n`.
pub open spec fn bit_length(n: nat) -> int {
    64 - u64_leading_zeros(n as u64)
}

/// How much a cut-off update value grows when the `p - new_p` index bits that
/// held `j` count as leading zeros again.
pub open spec fn cut_value_growth(p: u32, new_p: u32, j: nat) -> int {
    4 * (p - new_p - bit_length(j))
}

/// Register `i` at precision `new_p`, gathered from the first `n` registers that
/// share its index bits.
pub open spec fn gathered(registers: Seq<u32>, p: u32, new_p: u32, d: u32, i: int, n: nat) -> u32
    decreases n,
{
    if n == 0 {
        0
    } else {
        let j = (n - 1) as nat;
        register::merged(
            gathered(registers, p, new_p, d, i, j),
            register::rebase(
                registers[i + pow2(new_p as nat) * j],
                d,
                first_cut_value(p),
                cut_value_growth(p, new_p, j),
            ),
            d,
        )
    }
}

/// A register word cut to the `d + 8` bits that its storage has room for.
pub open spec fn trimmed(r: u32, d: u32) -> u32 {
    (r as int % pow2((d + register::VALUE_BITS) as nat) as int) as u32
}

/// The registers at the lower precision `new_p`.
pub open spec fn reduce_registers(registers: Seq<u32>, p: u32, new_p: u32, d: u32) -> Seq<u32> {
    Seq::new(
        pow2(new_p as nat),
        |i: int| trimmed(gathered(registers, p, new_p, d, i, pow2((p - new_p) as nat)), d),
    )
}

/// Whether every cut-off update value can grow within the word that holds it, as
/// is the case in each register that hashes were inserted into.
pub open spec fn reducible(registers: Seq<u32>, p: u32, new_p: u32, d: u32) -> bool {
    forall|i: int, j: nat|
        0 <= i < pow2(new_p as nat) && j < pow2((p - new_p) as nat) ==> register::rebasable(
            #[trigger] registers[i + pow2(new_p as nat) * j],
            d,
            first_cut_value(p),
            cut_value_growth(p, new_p, j),
        )
}

/// Bits of the index part that a reduction folds away.
pub proof fn lemma_growth_bounds(p: u32, new_p: u32, j: nat)
    requires
        new_p <= p <= 26,
        j < pow2((p - new_p) as nat),
    ensures
        0 <= bit_length(j) <= p - new_p,
        0 <= cut_value_growth(p, new_p, j) <= 4 * (p - new_p),
        j <= 0x400_0000,
{
    hashing::lemma_one_shl((p - new_p) as u32);
    let x = j as u64;
    hashing::lemma_leading_zeros_interval(x);
    let n = 64 - u64_leading_zeros(x);
    if n > p - new_p {
        hashing::lemma_pow2_monotonic((p - new_p) as nat, (n - 1) as nat);
    }
}

/// The registers that share the index bits of register `i` at the lower
/// precision exist.
pub proof fn lemma_fold_in_bounds(p: u32, new_p: u32, i: int, j: nat)
    requires
        new_p <= p <= 26,
        0 <= i < pow2(new_p as nat),
        j < pow2((p - new_p) as nat),
    ensures
        0 <= i + pow2(new_p as nat) * j < pow2(p as nat),
{
    lemma_pow2_adds(new_p as nat, (p - new_p) as nat);
    let m = pow2(new_p as nat) as int;
    let k = pow2((p - new_p) as nat) as int;
    assert(0 <= i + m * j < m * k) by (nonlinear_arith)
        requires
            0 <= i < m,
            0 <= j < k,
    ;
}

/// The strictly increasing sequence of the elements of a finite set.
pub open spec fn ascending(tokens: Set<u32>) -> Seq<u32> {
    choose|s: Seq<u32>| strictly_increasing(s) && s.to_set() == tokens
}

/// Whether a sequence is sorted and free of duplicates.
pub open spec fn strictly_increasing(s: Seq<u32>) -> bool {
    forall|i: int, j: int| 0 <= i < j < s.len() ==> s[i] < s[j]
}

/// Parameters that tell the variants of the sketch apart.
pub struct Variant {
    /// Number of window bits per register.
    pub d: u32,
    /// Bytes that the dense representation takes for two registers.
    pub pair_bytes: u32,
}

impl Variant {
    /// Number of tokens up to which a sketch stays sparse: that many 4-byte
    /// tokens take as much memory as the dense registers.
    pub open spec fn break_even(self, p: u32) -> int {
        (pow2(p as nat) * self.pair_bytes) / 8
    }
}

/// What a sketch stands for.
#[verifier::ext_equal]
pub struct SketchView {
    /// Precision: there are `2^p` registers.
    pub p: u32,
    /// The hash tokens, while the sketch is sparse.
    pub tokens: Option<Set<u32>>,
    /// The registers; in sparse mode those that the tokens give.
    pub registers: Seq<u32>,
    /// Whether the martingale estimator has followed every insert.
    pub martingale: bool,
}

impl SketchView {
    /// What holds of every sketch.
    pub open spec fn valid(self, variant: Variant) -> bool {
        &&& MIN_P <= self.p <= MAX_P
        &&& self.registers.len() == pow2(self.p as nat)
        &&& forall|i: int|
            0 <= i < self.registers.len() ==> register::top(#[trigger] self.registers[i], variant.d)
                < 256
        &&& self.tokens matches Some(tokens) ==> {
            &&& tokens.finite()
            &&& tokens.len() <= u32::MAX
            &&& self == SketchView::sparse(self.p, tokens, variant)
        }
    }

    /// A sparse sketch with the given tokens.
    pub open spec fn sparse(p: u32, tokens: Set<u32>, variant: Variant) -> SketchView {
        SketchView {
            p,
            tokens: Some(tokens),
            registers: registers_of(token_hashes(tokens), p, variant.d),
            martingale: false,
        }
    }

    /// A dense sketch with the given registers.
    pub open spec fn dense(p: u32, registers: Seq<u32>, martingale: bool) -> SketchView {
        SketchView { p, tokens: None, registers, martingale }
    }

    /// Whether nothing was inserted.
    pub open spec fn is_empty(self) -> bool {
        match self.tokens {
            Some(tokens) => tokens == Set::<u32>::empty(),
            None => forall|i: int| 0 <= i < self.registers.len() ==> self.registers[i] == 0,
        }
    }

    /// The dense sketch with the same registers.
    pub open spec fn densified(self) -> SketchView {
        if self.tokens is None {
            self
        } else {
            SketchView::dense(self.p, self.registers, false)
        }
    }

    /// A sketch with the given tokens: sparse up to the break-even point, dense
    /// above it.
    pub open spec fn settled(p: u32, tokens: Set<u32>, variant: Variant) -> SketchView {
        let view = SketchView::sparse(p, tokens, variant);
        if tokens.len() > variant.break_even(p) {
            view.densified()
        } else {
            view
        }
    }

    /// The sketch after one hash has been inserted.
    pub open spec fn with_hash(self, hash: u64, variant: Variant) -> SketchView {
        match self.tokens {
            Some(tokens) => if tokens.contains(hashing::token_of(hash)) {
                self
            } else {
                SketchView::settled(self.p, tokens.insert(hashing::token_of(hash)), variant)
            },
            None => SketchView::dense(
                self.p,
                absorb_hashes(self.registers, set![hash], self.p, variant.d),
                self.martingale,
            ),
        }
    }

    /// The sketch after a batch of hashes has been inserted.
    pub open spec fn with_hashes(self, hashes: Set<u64>, variant: Variant) -> SketchView {
        match self.tokens {
            Some(tokens) => SketchView::settled(
                self.p,
                tokens.union(hash_tokens(hashes)),
                variant,
            ),
            None => SketchView::dense(
                self.p,
                absorb_hashes(self.registers, hashes, self.p, variant.d),
                self.martingale,
            ),
        }
    }

    /// The sketch after a batch of hashes has been inserted register by
    /// register.
    pub open spec fn with_hashes_dense(self, hashes: Set<u64>, variant: Variant) -> SketchView {
        SketchView::dense(
            self.p,
            absorb_hashes(self.registers, hashes, self.p, variant.d),
            false,
        )
    }

    /// The sketch after `other`, of the same precision, has been merged into it.
    pub open spec fn merge(self, other: SketchView, variant: Variant) -> SketchView {
        match (self.tokens, other.tokens) {
            (Some(tokens), Some(others)) => SketchView::settled(
                self.p,
                tokens.union(others),
                variant,
            ),
            (None, Some(others)) => SketchView::dense(
                self.p,
                absorb_hashes(self.registers, token_hashes(others), self.p, variant.d),
                false,
            ),
            (_, None) => SketchView::dense(
                self.p,
                merge_registers(self.registers, other.registers, variant.d),
                false,
            ),
        }
    }

    /// Whether the sketch can be brought to the precision `new_p`.
    pub open spec fn can_reduce(self, new_p: u32, variant: Variant) -> bool {
        self.tokens is Some || new_p == self.p || reducible(
            self.registers,
            self.p,
            new_p,
            variant.d,
        )
    }

    /// The sketch at the lower or equal precision `new_p`.
    pub open spec fn reduce(self, new_p: u32, variant: Variant) -> SketchView {
        match self.tokens {
            Some(tokens) => SketchView::settled(
                new_p,
                hash_tokens(token_hashes(tokens)),
                variant,
            ),
            None => SketchView::dense(
                new_p,
                if new_p == self.p {
                    self.registers
                } else {
                    reduce_registers(self.registers, self.p, new_p, variant.d)
                },
                false,
            ),
        }
    }
}

/// The sketch after `others` have been merged into it one after the other, and
/// the error that stopped this, if one did: the first sketch of another
/// precision is not merged, nor are those after it.
pub open spec fn merge_all(view: SketchView, others: Seq<SketchView>, variant: Variant) -> (
    SketchView,
    Option<MergeError>,
)
    decreases others.len(),
{
    if others.len() == 0 {
        (view, None)
    } else if others[0].p != view.p {
        (view, Some(MergeError::PrecisionMismatch { lhs: view.p, rhs: others[0].p }))
    } else {
        merge_all(view.merge(others[0], variant), others.drop_first(), variant)
    }
}

} // verus!
