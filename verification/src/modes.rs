//! When a sketch is sparse, when it is empty, and when the martingale estimator can
//! follow it.

use vstd::arithmetic::power2::*;
use vstd::prelude::*;

use crate::algebra;
use crate::codec;
use crate::error::MergeError;
use crate::hashing;
use crate::laws;
use crate::register;
use crate::state;
use crate::state::SketchView;
use crate::state::Variant;
use crate::storage::RegisterArray;

verus! {

/// After a merge the martingale estimator is off, whatever was merged.
pub proof fn merge_ends_martingale(a: SketchView, b: SketchView, variant: Variant)
    ensures
        !a.merge(b, variant).martingale,
{
}

/// After merging a list of sketches, at least one of which could be merged, the
/// martingale estimator is off.
pub proof fn merging_a_list_ends_martingale(
    view: SketchView,
    others: Seq<SketchView>,
    variant: Variant,
)
    ensures
        others.len() > 0 && others[0].p == view.p ==> !state::merge_all(
            view,
            others,
            variant,
        ).0.martingale,
        !view.martingale ==> !state::merge_all(view, others, variant).0.martingale,
    decreases others.len(),
{
    if others.len() > 0 && others[0].p == view.p {
        merging_a_list_ends_martingale(
            view.merge(others[0], variant),
            others.drop_first(),
            variant,
        );
    }
}

/// The martingale estimator follows inserts into a sketch that was dense from the start,
/// and nothing else: it is off in sparse mode, and a sketch that was sorted into,
/// reduced, read back or made dense from tokens has lost it for good.
pub proof fn martingale_follows_inserts_only<R: RegisterArray>(
    view: SketchView,
    hash: u64,
    hashes: Set<u64>,
    p: u32,
    b: Seq<u8>,
)
    requires
        view.valid(R::variant()),
    ensures
        view.tokens is Some ==> !view.martingale,
        view.with_hash(hash, R::variant()).martingale == view.martingale,
        view.with_hashes(hashes, R::variant()).martingale == view.martingale,
        view.densified().martingale == view.martingale,
        !view.with_hashes_dense(hashes, R::variant()).martingale,
        !view.reduce(p, R::variant()).martingale,
        !codec::decoded::<R>(b).martingale,
        forall|tokens: Set<u32>| !(#[trigger] SketchView::sparse(p, tokens, R::variant())).martingale,
{
}

/// Whether `tokens` take no more memory than the registers: four bytes each, against
/// `pair_bytes` for every two registers.
pub open spec fn tokens_fit(p: u32, tokens: Set<u32>, variant: Variant) -> bool {
    2 * (4 * tokens.len()) <= pow2(p as nat) * variant.pair_bytes
}

/// An insert keeps a sketch sparse, with the token of the hash among its tokens, exactly
/// as long as the tokens take no more memory than the registers would; a token that is
/// there already changes nothing, and a dense sketch stays dense.
pub proof fn insert_stays_sparse_while_tokens_fit(
    view: SketchView,
    hash: u64,
    variant: Variant,
)
    ensures
        match view.tokens {
            None => view.with_hash(hash, variant).tokens is None,
            Some(tokens) => {
                let more = tokens.insert(hashing::token_of(hash));
                if tokens.contains(hashing::token_of(hash)) || tokens_fit(view.p, more, variant) {
                    view.with_hash(hash, variant).tokens == Some(more)
                } else {
                    view.with_hash(hash, variant).tokens is None
                }
            },
        },
        view.with_hash(hash, variant).p == view.p,
{
    if let Some(tokens) = view.tokens {
        if tokens.contains(hashing::token_of(hash)) {
            assert(tokens.insert(hashing::token_of(hash)) =~= tokens);
        }
    }
}

/// The same of a batch, of a merge, and of a reduction.
pub proof fn sketches_are_sparse_while_tokens_fit(
    view: SketchView,
    tokens: Set<u32>,
    other: SketchView,
    hashes: Set<u64>,
    new_p: u32,
    variant: Variant,
)
    requires
        view.tokens == Some(tokens),
    ensures
        tokens_fit(view.p, tokens.union(state::hash_tokens(hashes)), variant) ==> view.with_hashes(
            hashes,
            variant,
        ).tokens == Some(tokens.union(state::hash_tokens(hashes))),
        !tokens_fit(view.p, tokens.union(state::hash_tokens(hashes)), variant)
            ==> view.with_hashes(hashes, variant).tokens is None,
        other.tokens matches Some(others) ==> {
            &&& tokens_fit(view.p, tokens.union(others), variant) ==> view.merge(
                other,
                variant,
            ).tokens == Some(tokens.union(others))
            &&& !tokens_fit(view.p, tokens.union(others), variant) ==> view.merge(
                other,
                variant,
            ).tokens is None
        },
        other.tokens is None ==> view.merge(other, variant).tokens is None && other.merge(
            view,
            variant,
        ).tokens is None,
        tokens_fit(new_p, state::hash_tokens(state::token_hashes(tokens)), variant)
            <==> view.reduce(new_p, variant).tokens is Some,
        view.with_hashes(hashes, variant).p == view.p,
        view.merge(other, variant).p == view.p,
        view.reduce(new_p, variant).p == new_p,
{
}

/// A sketch that has stayed sparse through its inserts has exactly the tokens of the
/// hashes that were inserted.
pub proof fn sparse_sketch_has_the_tokens(
    view: SketchView,
    tokens: Set<u32>,
    hashes: Seq<u64>,
    variant: Variant,
)
    requires
        view.tokens == Some(tokens),
        laws::inserted(view, hashes, variant).tokens is Some,
    ensures
        laws::inserted(view, hashes, variant).tokens == Some(
            tokens.union(state::hash_tokens(hashes.to_set())),
        ),
    decreases hashes.len(),
{
    let after = tokens.union(state::hash_tokens(hashes.to_set()));
    if hashes.len() == 0 {
        assert(hashes.to_set() =~= Set::empty());
        assert(after =~= tokens);
    } else {
        let rest = hashes.drop_last();
        let hash = hashes.last();
        insert_stays_sparse_while_tokens_fit(laws::inserted(view, rest, variant), hash, variant);
        sparse_sketch_has_the_tokens(view, tokens, rest, variant);
        let before = tokens.union(state::hash_tokens(rest.to_set()));
        assert(hashes =~= rest.push(hash));
        rest.lemma_push_to_set_commute(hash);
        assert forall|t: u32| after.contains(t) == before.insert(
            hashing::token_of(hash),
        ).contains(t) by {
            let all = state::hash_tokens(hashes.to_set());
            let some = state::hash_tokens(rest.to_set());
            if all.contains(t) {
                let h = choose|h: u64| #[trigger]
                    hashes.to_set().contains(h) && t == hashing::token_of(h);
                if h != hash {
                    assert(rest.to_set().contains(h));
                    assert(some.contains(hashing::token_of(h)));
                }
            }
            if some.contains(t) {
                let h = choose|h: u64| #[trigger]
                    rest.to_set().contains(h) && t == hashing::token_of(h);
                assert(hashes.to_set().contains(h));
                assert(all.contains(hashing::token_of(h)));
            }
            assert(hashes.to_set().contains(hash));
            assert(all.contains(hashing::token_of(hash)));
        }
        assert(after =~= before.insert(hashing::token_of(hash)));
    }
}

/// A sketch is empty exactly if all its registers are, in either mode.
pub proof fn empty_sketches_have_empty_registers(view: SketchView, variant: Variant)
    requires
        laws::ordinary(variant),
        view.valid(variant),
    ensures
        view.is_empty() <==> view.registers == state::empty_registers(view.p),
{
    let p = view.p;
    let d = variant.d;
    match view.tokens {
        None => {
            if view.is_empty() {
                assert(view.registers =~= state::empty_registers(p));
            }
        },
        Some(tokens) => {
            let hashes = state::token_hashes(tokens);
            if tokens =~= Set::empty() {
                assert(hashes =~= Set::empty());
                algebra::lemma_absorb_nothing(state::empty_registers(p), p, d);
            } else {
                let token = tokens.choose();
                let hash = hashing::hash_of(token);
                assert(hashes.contains(hash));
                let i = hashing::register_index(hash, p);
                hashing::lemma_update_bounds(hash, p);
                algebra::lemma_absorb_hashes(state::empty_registers(p), hashes, p, d, i);
                assert(state::values_at(hashes, p, i).contains(hashing::update_value(hash, p)));
                assert(register::top(view.registers[i], d) >= 1);
                laws::lemma_empty_recorded(d, 0);
                assert(view.registers[i] != 0);
            }
        },
    }
}

/// A sketch that hashes were inserted into is not empty.
pub proof fn inserted_sketches_are_not_empty(view: SketchView, hash: u64, variant: Variant)
    requires
        laws::ordinary(variant),
        view.valid(variant),
    ensures
        !view.with_hash(hash, variant).is_empty(),
{
    let p = view.p;
    let d = variant.d;
    match view.tokens {
        None => {
            let i = hashing::register_index(hash, p);
            hashing::lemma_update_bounds(hash, p);
            algebra::lemma_absorb_hashes(view.registers, set![hash], p, d, i);
            assert(set![hash].contains(hash));
            assert(state::values_at(set![hash], p, i).contains(hashing::update_value(hash, p)));
            let out = view.with_hash(hash, variant).registers;
            assert(register::top(out[i], d) >= 1);
            laws::lemma_empty_recorded(d, 0);
            assert(out[i] != 0);
        },
        Some(tokens) => {
            let more = tokens.insert(hashing::token_of(hash));
            laws::tokens_have_an_order(more);
            insert_stays_sparse_while_tokens_fit(view, hash, variant);
            if view.with_hash(hash, variant).tokens is None {
                let hashes = state::token_hashes(more);
                let back = hashing::hash_of(hashing::token_of(hash));
                assert(more.contains(hashing::token_of(hash)));
                assert(hashes.contains(back));
                let i = hashing::register_index(back, p);
                hashing::lemma_update_bounds(back, p);
                algebra::lemma_absorb_hashes(state::empty_registers(p), hashes, p, d, i);
                assert(state::values_at(hashes, p, i).contains(hashing::update_value(back, p)));
                let out = view.with_hash(hash, variant).registers;
                assert(register::top(out[i], d) >= 1);
                laws::lemma_empty_recorded(d, 0);
                assert(out[i] != 0);
            } else {
                assert(more.contains(hashing::token_of(hash)));
            }
        },
    }
}

/// Merging one list after another is merging both as one, and the first error ends it.
pub proof fn merging_lists_in_turn(
    view: SketchView,
    first: Seq<SketchView>,
    second: Seq<SketchView>,
    variant: Variant,
)
    ensures
        state::merge_all(view, first + second, variant) == match state::merge_all(
            view,
            first,
            variant,
        ) {
            (merged, None) => state::merge_all(merged, second, variant),
            stopped => stopped,
        },
    decreases first.len(),
{
    if first.len() == 0 {
        assert(first + second =~= second);
    } else {
        assert((first + second).drop_first() =~= first.drop_first() + second);
        merging_lists_in_turn(
            view.merge(first[0], variant),
            first.drop_first(),
            second,
            variant,
        );
    }
}

/// A list merges without error exactly if all its sketches have the right precision; the
/// error names the first one that has not.
pub proof fn merging_stops_at_first_mismatch(
    view: SketchView,
    others: Seq<SketchView>,
    variant: Variant,
)
    ensures
        match state::merge_all(view, others, variant).1 {
            None => forall|i: int| 0 <= i < others.len() ==> (#[trigger] others[i]).p == view.p,
            Some(error) => exists|n: int|
                {
                    &&& 0 <= n < others.len()
                    &&& (#[trigger] others[n]).p != view.p
                    &&& error == (MergeError::PrecisionMismatch { lhs: view.p, rhs: others[n].p })
                    &&& forall|i: int| 0 <= i < n ==> (#[trigger] others[i]).p == view.p
                },
        },
    decreases others.len(),
{
    if others.len() > 0 && others[0].p == view.p {
        let rest = others.drop_first();
        let next = view.merge(others[0], variant);
        merging_stops_at_first_mismatch(next, rest, variant);
        assert forall|i: int| 0 <= i < rest.len() implies rest[i] == others[i + 1] by {}
        match state::merge_all(next, rest, variant).1 {
            None => {
                assert forall|i: int| 0 <= i < others.len() implies (#[trigger] others[i]).p
                    == view.p by {
                    if i > 0 {
                        assert(rest[i - 1].p == next.p);
                    }
                }
            },
            Some(error) => {
                let n = choose|n: int|
                    {
                        &&& 0 <= n < rest.len()
                        &&& (#[trigger] rest[n]).p != next.p
                        &&& error == (MergeError::PrecisionMismatch {
                            lhs: next.p,
                            rhs: rest[n].p,
                        })
                        &&& forall|i: int| 0 <= i < n ==> (#[trigger] rest[i]).p == next.p
                    };
                assert(others[n + 1] == rest[n]);
                assert forall|i: int| 0 <= i < n + 1 implies (#[trigger] others[i]).p
                    == view.p by {
                    if i > 0 {
                        assert(rest[i - 1].p == next.p);
                    }
                }
            },
        }
    }
}

} // verus!
