//! The variant for fast access: registers of 32 bits, each in a word of its own,
//! which can also be updated concurrently.

use std::hash::Hash;

use vstd::arithmetic::power2::*;
use vstd::prelude::*;
use vstd::std_specs::cmp::PartialEqSpec;
use vstd::std_specs::iter::IteratorSpec;

use crate::codec;
use crate::default_hash;
use crate::error::DeserializeError;
use crate::error::MergeError;
use crate::hashing;
use crate::laws;
use crate::likelihood;
use crate::likelihood::Likelihood;
use crate::register;
use crate::sketch::Sketch;
use crate::state;
use crate::state::SketchView;
use crate::storage::aligned_variant;
use crate::storage::AlignedRegisters;
use crate::MAX_P;
use crate::MIN_P;

verus! {

/// Number of tokens up to which a sketch with aligned registers of precision `p`
/// stays sparse.
pub fn sparse_capacity(p: u32) -> (n: usize)
    requires
        p <= MAX_P,
    ensures
        n == aligned_variant().break_even(p),
{
    proof {
        hashing::lemma_one_shl(p);
    }
    1usize << p
}

/// Sketch for approximate distinct counting with aligned registers (`t = 2`,
/// `d = 24`).
#[derive(Debug)]
pub struct ExaLogLogFast {
    sketch: Sketch<AlignedRegisters>,
}

impl ExaLogLogFast {
    /// The invariant of a sketch.
    #[verifier::type_invariant]
    spec fn inv(self) -> bool {
        self.sketch.wf()
    }

    /// Creates an empty sparse sketch with `2^p` registers.
    pub fn new(p: u32) -> (res: Self)
        requires
            MIN_P <= p <= MAX_P,
        ensures
            res@ == SketchView::sparse(p, Set::empty(), aligned_variant()),
    {
        ExaLogLogFast { sketch: Sketch::new(p) }
    }

    /// Creates an empty sketch that is dense from the start, so that the martingale
    /// estimator can follow it.
    pub fn new_dense(p: u32) -> (res: Self)
        requires
            MIN_P <= p <= MAX_P,
        ensures
            res@ == SketchView::dense(p, state::empty_registers(p), true),
    {
        ExaLogLogFast { sketch: Sketch::new_dense(p) }
    }

    /// Moves the contents out, leaving an empty sketch of the same precision behind.
    fn take(&mut self) -> (sketch: Sketch<AlignedRegisters>)
        ensures
            sketch.wf(),
            sketch.model() == old(self)@,
    {
        proof {
            use_type_invariant(&*self);
            self.sketch.lemma_valid();
        }
        let mut sketch = Sketch::new(self.sketch.precision());
        std::mem::swap(&mut sketch, &mut self.sketch);
        sketch
    }

    /// Precision parameter `p`.
    pub fn precision(&self) -> (p: u32)
        ensures
            p == self@.p,
            self@.valid(aligned_variant()),
    {
        proof {
            use_type_invariant(self);
            self.sketch.lemma_valid();
        }
        self.sketch.precision()
    }

    /// Number of registers, `2^p`.
    pub fn num_registers(&self) -> (m: usize)
        ensures
            m == pow2(self@.p as nat),
            self@.valid(aligned_variant()),
    {
        proof {
            use_type_invariant(self);
            self.sketch.lemma_valid();
            hashing::lemma_one_shl(self@.p);
        }
        1usize << self.sketch.precision()
    }

    /// Bytes that the tokens or the registers take in memory. In sparse mode this is
    /// four bytes for each token that the list has room for.
    pub fn register_bytes(&self) -> (n: usize)
        ensures
            self@.tokens is None ==> 2 * n == pow2(self@.p as nat) * aligned_variant().pair_bytes,
            self@.tokens matches Some(tokens) ==> n >= 4 * tokens.len(),
    {
        proof {
            use_type_invariant(self);
        }
        self.sketch.register_bytes()
    }

    /// Whether the sketch is in sparse mode.
    pub fn is_sparse(&self) -> (res: bool)
        ensures
            res == (self@.tokens is Some),
    {
        self.sketch.is_sparse()
    }

    /// Number of window bits per register.
    pub fn d_parameter(&self) -> (d: u32)
        ensures
            d == aligned_variant().d,
    {
        24
    }

    /// Register `i`: the largest update value in the upper eight bits, the window
    /// below it.
    pub fn get_register(&self, i: usize) -> (r: u32)
        requires
            i < pow2(self@.p as nat),
        ensures
            r == self@.registers[i as int],
    {
        proof {
            use_type_invariant(self);
        }
        self.sketch.get_register(i)
    }

    /// Whether nothing was inserted.
    pub fn is_empty(&self) -> (res: bool)
        ensures
            res == self@.is_empty(),
    {
        proof {
            use_type_invariant(self);
        }
        self.sketch.is_empty()
    }

    /// Switches to dense mode. The martingale estimator cannot be followed from
    /// there on; a sketch that is dense already stays as it is.
    pub fn densify(&mut self)
        ensures
            final(self)@ == old(self)@.densified(),
    {
        let mut sketch = self.take();
        proof {
            sketch.lemma_valid();
        }
        sketch.densify();
        self.sketch = sketch;
    }

    /// Inserts a hash. Its bits must be uniformly distributed for the estimates to
    /// be any good.
    pub fn add_hash(&mut self, hash: u64)
        ensures
            final(self)@ == old(self)@.with_hash(hash, aligned_variant()),
    {
        let mut sketch = self.take();
        sketch.add_hash(hash);
        self.sketch = sketch;
    }

    /// Inserts a batch of hashes.
    pub fn add_hashes(&mut self, hashes: &[u64])
        ensures
            final(self)@ == old(self)@.with_hashes(hashes@.to_set(), aligned_variant()),
    {
        let mut sketch = self.take();
        sketch.add_hashes(hashes);
        self.sketch = sketch;
    }

    /// Inserts a batch of hashes in the order of the registers that they go to, which
    /// is kind to the caches when there are many registers. The sketch is dense
    /// afterwards and the martingale estimator cannot be followed any more; an empty
    /// batch changes nothing.
    pub fn add_hashes_sorted(&mut self, hashes: &[u64])
        ensures
            hashes@.len() == 0 ==> final(self)@ == old(self)@,
            hashes@.len() > 0 ==> final(self)@ == old(self)@.with_hashes_dense(
                hashes@.to_set(),
                aligned_variant(),
            ),
    {
        let mut sketch = self.take();
        sketch.add_hashes_sorted(hashes);
        self.sketch = sketch;
    }

    /// Inserts a value by the hash that the default hasher of the standard library
    /// gives it. Which hash that is, the `Hash` implementation of the value decides.
    pub fn add<H: Hash + ?Sized>(&mut self, item: &H)
        ensures
            exists|hash: u64| #[trigger]
                default_hash::is_hash_of(item, hash) && default_hash::is_default_hash(hash)
                    && final(self)@ == old(self)@.with_hash(hash, aligned_variant()),
    {
        let hash: u64 = default_hash::hash_item(item);
        self.add_hash(hash);
    }

    /// Inserts the hashes that an iterator yields, as one batch.
    pub fn extend<I: Iterator<Item = u64>>(&mut self, hashes: I)
        requires
            hashes.obeys_prophetic_iter_laws(),
            hashes.decrease() is Some,
        ensures
            final(self)@ == old(self)@.with_hashes(hashes.remaining().to_set(), aligned_variant()),
    {
        let mut batch: Vec<u64> = Vec::new();
        let mut rest = hashes;
        loop
            invariant
                rest.obeys_prophetic_iter_laws(),
                rest.decrease() is Some,
                batch@ + rest.remaining() == hashes.remaining(),
                self@ == old(self)@,
            decreases rest.decrease()->0,
        {
            let ghost before = batch@ + rest.remaining();
            match rest.next() {
                None => {
                    assert(batch@ =~= hashes.remaining());
                    self.add_hashes(&batch);
                    return;
                },
                Some(hash) => {
                    batch.push(hash);
                    assert(batch@ + rest.remaining() =~= before);
                },
            }
        }
    }

    /// Merges another sketch into this one. Sketches of different precision cannot
    /// be merged: this one is then unchanged.
    pub fn merge(&mut self, other: &Self) -> (res: Result<(), MergeError>)
        ensures
            old(self)@.p == other@.p ==> res == Ok::<(), MergeError>(()) && final(self)@ == old(
                self,
            )@.merge(other@, aligned_variant()),
            old(self)@.p != other@.p ==> res == Err::<(), MergeError>(
                MergeError::PrecisionMismatch { lhs: old(self)@.p, rhs: other@.p },
            ) && final(self)@ == old(self)@,
    {
        proof {
            use_type_invariant(other);
        }
        let mut sketch = self.take();
        let res = sketch.merge(&other.sketch);
        self.sketch = sketch;
        res
    }

    /// Merges sketches into this one, one after the other. The first one of another
    /// precision stops this with an error; what was merged before it stays merged.
    pub fn merge_iter<'a, I: Iterator<Item = &'a Self>>(&mut self, sketches: I) -> (res: Result<
        (),
        MergeError,
    >)
        requires
            sketches.obeys_prophetic_iter_laws(),
            sketches.decrease() is Some,
        ensures
            final(self)@ == state::merge_all(old(self)@, views(sketches.remaining()), aligned_variant()).0,
            match state::merge_all(old(self)@, views(sketches.remaining()), aligned_variant()).1 {
                None => res == Ok::<(), MergeError>(()),
                Some(error) => res == Err::<(), MergeError>(error),
            },
    {
        let mut rest = sketches;
        loop
            invariant
                rest.obeys_prophetic_iter_laws(),
                rest.decrease() is Some,
                state::merge_all(self@, views(rest.remaining()), aligned_variant()) == state::merge_all(
                    old(self)@,
                    views(sketches.remaining()),
                    aligned_variant(),
                ),
            decreases rest.decrease()->0,
        {
            let ghost before = rest.remaining();
            match rest.next() {
                None => {
                    return Ok(());
                },
                Some(other) => {
                    assert(views(before).drop_first() =~= views(rest.remaining()));
                    assert(views(before)[0] == other@);
                    if let Err(error) = self.merge(other) {
                        return Err(error);
                    }
                },
            }
        }
    }

    /// Whether [`Self::reduce`] to the precision `new_p` is possible. It always is,
    /// but for registers that came in as bytes and that no inserts could give.
    pub fn can_reduce(&self, new_p: u32) -> (res: bool)
        requires
            MIN_P <= new_p <= self@.p,
        ensures
            res == self@.can_reduce(new_p, aligned_variant()),
    {
        proof {
            use_type_invariant(self);
        }
        self.sketch.can_reduce(new_p)
    }

    /// The sketch at the lower or equal precision `new_p`: what inserting the same
    /// hashes at that precision gives.
    pub fn reduce(&self, new_p: u32) -> (res: Self)
        requires
            MIN_P <= new_p <= self@.p,
            self@.can_reduce(new_p, aligned_variant()),
        ensures
            res@ == self@.reduce(new_p, aligned_variant()),
    {
        proof {
            use_type_invariant(self);
        }
        ExaLogLogFast { sketch: self.sketch.reduce(new_p) }
    }

    /// Empties the sketch, which is sparse afterwards.
    pub fn clear(&mut self)
        ensures
            final(self)@ == SketchView::sparse(old(self)@.p, Set::empty(), aligned_variant()),
    {
        let mut sketch = self.take();
        sketch.clear();
        self.sketch = sketch;
    }

    /// Coefficients of the likelihood of the distinct count: of the tokens in sparse
    /// mode, of the registers in dense mode. The count at which the likelihood is
    /// largest is the estimate.
    pub fn likelihood(&self) -> (res: Likelihood)
        ensures
            match self@.tokens {
                Some(tokens) => res.is_of_tokens(state::ascending(tokens)),
                None => res.p == self@.p && res.is_of_registers(self@.registers, aligned_variant().d),
            },
    {
        proof {
            use_type_invariant(self);
        }
        self.sketch.likelihood()
    }

    /// Probability, scaled by `2^64`, that the next hash changes a register, while
    /// the martingale estimator can follow the sketch.
    pub fn martingale_weight(&self) -> (res: Option<i128>)
        ensures
            res is Some <==> self@.martingale,
            res matches Some(weight) ==> weight == likelihood::total_change_weight(
                self@.registers,
                self@.p,
                aligned_variant().d,
            ),
    {
        proof {
            use_type_invariant(self);
        }
        self.sketch.martingale_weight()
    }

    /// Byte form of the sketch.
    pub fn to_bytes(&self) -> (out: Vec<u8>)
        ensures
            out@ == codec::encoded::<AlignedRegisters>(self@),
            self@.valid(aligned_variant()),
    {
        proof {
            use_type_invariant(self);
            self.sketch.lemma_valid();
        }
        self.sketch.to_bytes()
    }

    /// Reads a sketch from its byte form.
    pub fn from_bytes(bytes: &[u8]) -> (res: Result<Self, DeserializeError>)
        ensures
            match res {
                Ok(sketch) => {
                    &&& codec::decode_error::<AlignedRegisters>(bytes@) is None
                    &&& sketch@ == codec::decoded::<AlignedRegisters>(bytes@)
                },
                Err(error) => codec::decode_error::<AlignedRegisters>(bytes@) == Some(error),
            },
    {
        match Sketch::from_bytes(bytes) {
            Ok(sketch) => Ok(ExaLogLogFast { sketch }),
            Err(error) => Err(error),
        }
    }

    /// Copy of the registers: the largest update value in the upper eight bits, the
    /// window below it.
    pub fn snapshot(&self) -> (res: Vec<u32>)
        ensures
            res@ == self@.registers,
    {
        proof {
            use_type_invariant(self);
        }
        self.sketch.snapshot()
    }

    /// A dense sketch with the given register words, such as those that concurrent
    /// inserts have left. The martingale estimator cannot follow it.
    pub fn from_registers(p: u32, words: &Vec<u32>) -> (res: Self)
        requires
            MIN_P <= p <= MAX_P,
            words@.len() == pow2(p as nat),
        ensures
            res@ == SketchView::dense(p, words@, false),
    {
        assert forall|i: int| 0 <= i < words@.len() implies register::top(
            #[trigger] words@[i],
            aligned_variant().d,
        ) < 256 by {
            let word = words@[i];
            assert(word >> 24 < 256) by (bit_vector);
        }
        ExaLogLogFast { sketch: Sketch::from_registers(p, words) }
    }
}

impl View for ExaLogLogFast {
    type V = SketchView;

    closed spec fn view(&self) -> SketchView {
        self.sketch.model()
    }
}

/// What each of a list of sketches stands for.
pub open spec fn views(sketches: Seq<&ExaLogLogFast>) -> Seq<SketchView> {
    sketches.map_values(|sketch: &ExaLogLogFast| sketch@)
}

/// A list of sketches stands for as many views, each in its place.
pub proof fn views_are_in_place(sketches: Seq<&ExaLogLogFast>, i: int)
    ensures
        views(sketches).len() == sketches.len(),
        0 <= i < sketches.len() ==> views(sketches)[i] == sketches[i]@,
{
}

impl Clone for ExaLogLogFast {
    fn clone(&self) -> (res: Self)
        ensures
            res@ == self@,
    {
        proof {
            use_type_invariant(self);
        }
        ExaLogLogFast { sketch: self.sketch.duplicate() }
    }
}

/// Two sketches are equal if they have the same registers, in whichever mode they
/// are.
impl PartialEq for ExaLogLogFast {
    fn eq(&self, other: &Self) -> (res: bool) {
        proof {
            use_type_invariant(self);
            use_type_invariant(other);
        }
        self.sketch.same_registers(&other.sketch)
    }
}

impl vstd::std_specs::cmp::PartialEqSpecImpl for ExaLogLogFast {
    open spec fn obeys_eq_spec() -> bool {
        true
    }

    open spec fn eq_spec(&self, other: &Self) -> bool {
        self@.p == other@.p && self@.registers == other@.registers
    }
}

impl Eq for ExaLogLogFast {

}

/// Two sketches compare equal exactly if they have the same precision and the same
/// registers: those that stand for the same hashes do, and those with a register that
/// differs do not.
pub proof fn equal_iff_same_registers(a: ExaLogLogFast, b: ExaLogLogFast, hashes: Set<u64>)
    ensures
        a.eq_spec(&b) <==> a@.p == b@.p && a@.registers == b@.registers,
        a@.p == b@.p && laws::represents(a@, hashes, aligned_variant()) && laws::represents(
            b@,
            hashes,
            aligned_variant(),
        ) ==> a.eq_spec(&b),
{
}

} // verus!
