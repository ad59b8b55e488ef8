//! Register words that several threads insert into at the same time.

use std::sync::atomic::AtomicU32;
use std::sync::atomic::Ordering;

use vstd::arithmetic::power2::*;
use vstd::prelude::*;

use crate::fast::ExaLogLogFast;
use crate::hashing;
use crate::register;
use crate::state::SketchView;
use crate::storage::aligned_variant;
use crate::MAX_P;
use crate::MIN_P;

verus! {

/// A register word after the update value `k` has been inserted.
pub open spec fn word_with(word: u32, k: u32) -> u32 {
    register::absorb(word, aligned_variant().d, set![k as int])
}

/// The register word after the update value `k` has been inserted into `current`,
/// or nothing if that does not change it.
pub fn raised(current: u32, k: u32) -> (res: Option<u32>)
    requires
        k <= 255,
    ensures
        match res {
            Some(word) => word == word_with(current, k) && word != current,
            None => word_with(current, k) == current,
        },
{
    assert(0xffff_ffffu32 >> 24 == 255) by (bit_vector);
    let word: u32 = register::apply_insert(current, k, 24);
    if word == current {
        None
    } else {
        Some(word)
    }
}

/// Inserts `k` into a shared word with `AtomicU32::fetch_update` of the standard
/// library, which hands the word to [`raised`] until no other thread comes between
/// reading and writing it. The result is the word that was found then: `Ok` if it
/// was exchanged for what `raised` gives, `Err` if there was nothing to exchange.
/// Which word is found depends on the other threads, and what is in the word
/// afterwards is not stated.
#[verifier::external_body]
fn exchange(word: &AtomicU32, k: u32) -> (res: Result<u32, u32>)
    requires
        k <= 255,
    ensures
        match res {
            Ok(before) => word_with(before, k) != before,
            Err(before) => word_with(before, k) == before,
        },
{
    word.fetch_update(Ordering::Relaxed, Ordering::Relaxed, |current| raised(current, k))
}

/// Whether a relaxed load of `word` gave `value`.
spec fn loaded(word: &AtomicU32, value: u32) -> bool {
    call_ensures(AtomicU32::load, (word, Ordering::Relaxed), value)
}

/// The word that a shared register holds at the moment. Other threads may exchange it
/// at any time, so nothing is known of it but that it was loaded from there.
fn current_word(word: &AtomicU32) -> (value: u32)
    ensures
        loaded(word, value),
{
    word.load(Ordering::Relaxed)
}

/// What an insert did to a shared register.
#[derive(Debug, PartialEq, Eq, Structural)]
pub struct Exchange {
    /// Index of the register.
    pub register: usize,
    /// The word that was found.
    pub before: u32,
    /// The word that it was exchanged for; the same if nothing changed.
    pub after: u32,
}

/// The registers of a dense sketch, open to concurrent inserts.
#[derive(Debug)]
pub struct SharedRegisters {
    p: u32,
    words: Vec<AtomicU32>,
}

impl SharedRegisters {
    #[verifier::type_invariant]
    spec fn inv(self) -> bool {
        &&& MIN_P <= self.p <= MAX_P
        &&& self.words@.len() == pow2(self.p as nat)
    }

    /// Precision: there are `2^p` registers.
    pub closed spec fn p(&self) -> u32 {
        self.p
    }

    /// Whether the words were made from these registers, one for one.
    pub closed spec fn opened_from(&self, registers: Seq<u32>) -> bool {
        &&& self.words@.len() == registers.len()
        &&& forall|i: int|
            0 <= i < registers.len() ==> call_ensures(
                AtomicU32::new,
                (registers[i],),
                #[trigger] self.words@[i],
            )
    }

    /// Whether the word of register `i` was read and gave `value`.
    pub closed spec fn has_read(&self, i: int, value: u32) -> bool {
        loaded(&self.words@[i], value)
    }

    /// Whether the update value of `hash` went into the word of its register by an
    /// atomic exchange that found `done.before` there: an exchange for `done.after` if
    /// that differs, and none if it does not.
    pub closed spec fn has_exchanged(&self, hash: u64, done: Exchange) -> bool {
        let word = &self.words@[hashing::register_index(hash, self.p)];
        let found = if done.after != done.before {
            Ok::<u32, u32>(done.before)
        } else {
            Err::<u32, u32>(done.before)
        };
        call_ensures(exchange, (word, hashing::update_value(hash, self.p) as u32), found)
    }

    /// Opens the registers of a dense sketch to concurrent inserts.
    pub fn new(sketch: &ExaLogLogFast) -> (res: Self)
        requires
            sketch@.tokens is None,
        ensures
            res.p() == sketch@.p,
            res.opened_from(sketch@.registers),
    {
        let p: u32 = sketch.precision();
        let registers: Vec<u32> = sketch.snapshot();
        let mut words: Vec<AtomicU32> = Vec::new();
        let mut i: usize = 0;
        while i < registers.len()
            invariant
                i <= registers@.len(),
                words@.len() == i,
                forall|j: int|
                    0 <= j < i ==> call_ensures(
                        AtomicU32::new,
                        (registers@[j],),
                        #[trigger] words@[j],
                    ),
            decreases registers@.len() - i,
        {
            words.push(AtomicU32::new(registers[i]));
            i = i + 1;
        }
        SharedRegisters { p, words }
    }

    /// Precision parameter `p`.
    pub fn precision(&self) -> (p: u32)
        ensures
            p == self.p(),
            MIN_P <= p <= MAX_P,
    {
        proof {
            use_type_invariant(self);
        }
        self.p
    }

    /// Inserts a hash without taking a lock, whatever other threads do meanwhile. It
    /// goes to its register and exchanges the word there for one that records its
    /// update value too. What follows for the registers as a whole is said by
    /// [`crate::laws::exchanges_match_inserts`] and
    /// [`crate::laws::exchanges_in_turn_match_inserts`].
    pub fn add_hash_atomic(&self, hash: u64) -> (done: Exchange)
        ensures
            done.register == hashing::register_index(hash, self.p()),
            done.after == register::absorb(
                done.before,
                aligned_variant().d,
                set![hashing::update_value(hash, self.p())],
            ),
            self.has_exchanged(hash, done),
    {
        proof {
            use_type_invariant(self);
            hashing::lemma_update_bounds(hash, self.p);
        }
        let (register, k): (usize, u32) = hashing::hash_to_register_k(hash, self.p);
        match exchange(&self.words[register], k) {
            Ok(before) => {
                match raised(before, k) {
                    Some(after) => Exchange { register, before, after },
                    None => Exchange { register, before, after: before },
                }
            },
            Err(before) => Exchange { register, before, after: before },
        }
    }

    /// Copy of the register words as they are while it is made.
    pub fn snapshot(&self) -> (res: Vec<u32>)
        ensures
            res@.len() == pow2(self.p() as nat),
            forall|i: int| 0 <= i < res@.len() ==> self.has_read(i, #[trigger] res@[i]),
    {
        proof {
            use_type_invariant(self);
        }
        let mut res: Vec<u32> = Vec::new();
        let mut i: usize = 0;
        while i < self.words.len()
            invariant
                i <= self.words@.len(),
                res@.len() == i,
                forall|j: int| 0 <= j < i ==> self.has_read(j, #[trigger] res@[j]),
            decreases self.words@.len() - i,
        {
            res.push(current_word(&self.words[i]));
            i = i + 1;
        }
        res
    }

    /// A dense sketch with the register words as they are while it is made. The
    /// martingale estimator has not followed the concurrent inserts.
    pub fn to_sketch(&self) -> (res: ExaLogLogFast)
        ensures
            res@ == SketchView::dense(self.p(), res@.registers, false),
            res@.registers.len() == pow2(self.p() as nat),
            forall|i: int|
                0 <= i < res@.registers.len() ==> self.has_read(i, #[trigger] res@.registers[i]),
    {
        proof {
            use_type_invariant(self);
        }
        let words: Vec<u32> = self.snapshot();
        ExaLogLogFast::from_registers(self.p, &words)
    }
}

} // verus!
