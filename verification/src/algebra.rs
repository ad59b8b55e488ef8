//! How register arrays behave under inserts: order, grouping and repetition of
//! the hashes do not matter.

use vstd::arithmetic::power2::*;
use vstd::prelude::*;

use crate::hashing;
use crate::register;
use crate::state;

verus! {

/// Update values fit the part of the word above the window.
pub proof fn lemma_value_fits(d: u32)
    requires
        1 <= d <= 24,
    ensures
        255 <= u32::MAX >> d,
{
    assert(255 <= u32::MAX >> d) by (bit_vector)
        requires
            1 <= d <= 24,
    ;
}

/// What the hashes of a set bring to a register is in range.
pub proof fn lemma_values_in_range(hashes: Set<u64>, p: u32, i: int)
    requires
        p <= 26,
    ensures
        forall|v: int| #[trigger]
            state::values_at(hashes, p, i).contains(v) ==> 1 <= v <= hashing::max_update_value(p),
{
    assert forall|v: int| #[trigger] state::values_at(hashes, p, i).contains(v) implies 1 <= v
        <= hashing::max_update_value(p) by {
        let hash = choose|hash: u64| #[trigger]
            hashes.contains(hash) && hashing::register_index(hash, p) == i && hashing::update_value(
                hash,
                p,
            ) == v;
        hashing::lemma_update_bounds(hash, p);
    }
}

/// Each register absorbs the update values that the hashes bring to it.
pub proof fn lemma_absorb_hashes(registers: Seq<u32>, hashes: Set<u64>, p: u32, d: u32, i: int)
    requires
        p <= 26,
        1 <= d <= 24,
        0 <= i < registers.len(),
    ensures
        register::absorbs(
            state::absorb_hashes(registers, hashes, p, d)[i],
            registers[i],
            d,
            state::values_at(hashes, p, i),
        ),
{
    lemma_value_fits(d);
    lemma_values_in_range(hashes, p, i);
    register::lemma_absorb_exists(registers[i], d, state::values_at(hashes, p, i));
}

/// Registers that absorb the update values of `hashes` are determined.
pub proof fn lemma_absorbed_is(
    out: Seq<u32>,
    registers: Seq<u32>,
    hashes: Set<u64>,
    p: u32,
    d: u32,
)
    requires
        1 <= d <= 24,
        out.len() == registers.len(),
        forall|i: int|
            0 <= i < out.len() ==> register::absorbs(
                #[trigger] out[i],
                registers[i],
                d,
                state::values_at(hashes, p, i),
            ),
    ensures
        out == state::absorb_hashes(registers, hashes, p, d),
{
    let want = state::absorb_hashes(registers, hashes, p, d);
    assert forall|i: int| 0 <= i < out.len() implies out[i] == want[i] by {
        register::lemma_absorb_unique(
            out[i],
            out[i],
            registers[i],
            d,
            state::values_at(hashes, p, i),
        );
    }
    assert(out =~= want);
}

/// The update values of a union are those of both sets.
pub proof fn lemma_values_union(a: Set<u64>, b: Set<u64>, p: u32, i: int)
    ensures
        state::values_at(a.union(b), p, i) == state::values_at(a, p, i).union(
            state::values_at(b, p, i),
        ),
{
    let both = a.union(b);
    let va = state::values_at(a, p, i);
    let vb = state::values_at(b, p, i);
    assert forall|v: int| state::values_at(both, p, i).contains(v) == va.union(vb).contains(v) by {
        if state::values_at(both, p, i).contains(v) {
            let hash = choose|hash: u64| #[trigger]
                both.contains(hash) && hashing::register_index(hash, p) == i
                    && hashing::update_value(hash, p) == v;
            assert(a.contains(hash) || b.contains(hash));
        }
        if va.contains(v) {
            let hash = choose|hash: u64| #[trigger]
                a.contains(hash) && hashing::register_index(hash, p) == i && hashing::update_value(
                    hash,
                    p,
                ) == v;
            assert(both.contains(hash));
        }
        if vb.contains(v) {
            let hash = choose|hash: u64| #[trigger]
                b.contains(hash) && hashing::register_index(hash, p) == i && hashing::update_value(
                    hash,
                    p,
                ) == v;
            assert(both.contains(hash));
        }
    }
    assert(state::values_at(both, p, i) =~= va.union(vb));
}

/// Inserting two batches one after the other inserts their union.
pub proof fn lemma_absorb_union(registers: Seq<u32>, a: Set<u64>, b: Set<u64>, p: u32, d: u32)
    requires
        p <= 26,
        1 <= d <= 24,
    ensures
        state::absorb_hashes(state::absorb_hashes(registers, a, p, d), b, p, d)
            == state::absorb_hashes(registers, a.union(b), p, d),
{
    let mid = state::absorb_hashes(registers, a, p, d);
    let out = state::absorb_hashes(mid, b, p, d);
    assert forall|i: int| 0 <= i < out.len() implies register::absorbs(
        #[trigger] out[i],
        registers[i],
        d,
        state::values_at(a.union(b), p, i),
    ) by {
        lemma_absorb_hashes(registers, a, p, d, i);
        lemma_absorb_hashes(mid, b, p, d, i);
        register::lemma_absorb_compose(
            out[i],
            mid[i],
            registers[i],
            d,
            state::values_at(a, p, i),
            state::values_at(b, p, i),
        );
        lemma_values_union(a, b, p, i);
    }
    lemma_absorbed_is(out, registers, a.union(b), p, d);
}

/// Inserting nothing changes nothing.
pub proof fn lemma_absorb_nothing(registers: Seq<u32>, p: u32, d: u32)
    requires
        1 <= d <= 24,
    ensures
        state::absorb_hashes(registers, Set::empty(), p, d) == registers,
{
    assert forall|i: int| 0 <= i < registers.len() implies register::absorbs(
        #[trigger] registers[i],
        registers[i],
        d,
        state::values_at(Set::empty(), p, i),
    ) by {
        assert(state::values_at(Set::empty(), p, i) =~= Set::empty());
    }
    lemma_absorbed_is(registers, registers, Set::empty(), p, d);
}

/// Inserting one hash changes the register that it selects, and no other.
pub proof fn lemma_absorb_one(registers: Seq<u32>, hash: u64, p: u32, d: u32)
    requires
        p <= 26,
        1 <= d <= 24,
        registers.len() == pow2(p as nat),
    ensures
        0 <= hashing::register_index(hash, p) < registers.len(),
        state::absorb_hashes(registers, set![hash], p, d) == registers.update(
            hashing::register_index(hash, p),
            register::absorb(
                registers[hashing::register_index(hash, p)],
                d,
                set![hashing::update_value(hash, p)],
            ),
        ),
{
    hashing::lemma_update_bounds(hash, p);
    let at = hashing::register_index(hash, p);
    let k = hashing::update_value(hash, p);
    lemma_value_fits(d);
    register::lemma_absorb_exists(registers[at], d, set![k]);
    let out = registers.update(at, register::absorb(registers[at], d, set![k]));
    assert forall|i: int| 0 <= i < out.len() implies register::absorbs(
        #[trigger] out[i],
        registers[i],
        d,
        state::values_at(set![hash], p, i),
    ) by {
        let values = state::values_at(set![hash], p, i);
        if i == at {
            assert(set![hash].contains(hash));
            assert(values =~= set![k]);
        } else {
            assert(values =~= Set::empty());
        }
    }
    lemma_absorbed_is(out, registers, set![hash], p, d);
}

/// Hashes that agree in register index and update value are interchangeable.
pub proof fn lemma_absorb_same_updates(
    registers: Seq<u32>,
    a: Set<u64>,
    b: Set<u64>,
    p: u32,
    d: u32,
)
    requires
        forall|hash: u64| #[trigger]
            a.contains(hash) ==> exists|other: u64| #[trigger]
                b.contains(other) && hashing::register_index(other, p) == hashing::register_index(
                    hash,
                    p,
                ) && hashing::update_value(other, p) == hashing::update_value(hash, p),
        forall|hash: u64| #[trigger]
            b.contains(hash) ==> exists|other: u64| #[trigger]
                a.contains(other) && hashing::register_index(other, p) == hashing::register_index(
                    hash,
                    p,
                ) && hashing::update_value(other, p) == hashing::update_value(hash, p),
    ensures
        state::absorb_hashes(registers, a, p, d) == state::absorb_hashes(registers, b, p, d),
{
    assert forall|i: int| 0 <= i < registers.len() implies state::absorb_hashes(registers, a, p, d)[
    i] == state::absorb_hashes(registers, b, p, d)[i] by {
        assert forall|v: int| state::values_at(a, p, i).contains(v) == state::values_at(
            b,
            p,
            i,
        ).contains(v) by {
            if state::values_at(a, p, i).contains(v) {
                let hash = choose|hash: u64| #[trigger]
                    a.contains(hash) && hashing::register_index(hash, p) == i
                        && hashing::update_value(hash, p) == v;
                let other = choose|other: u64| #[trigger]
                    b.contains(other) && hashing::register_index(other, p)
                        == hashing::register_index(hash, p) && hashing::update_value(other, p)
                        == hashing::update_value(hash, p);
                assert(b.contains(other));
            }
            if state::values_at(b, p, i).contains(v) {
                let hash = choose|hash: u64| #[trigger]
                    b.contains(hash) && hashing::register_index(hash, p) == i
                        && hashing::update_value(hash, p) == v;
                let other = choose|other: u64| #[trigger]
                    a.contains(other) && hashing::register_index(other, p)
                        == hashing::register_index(hash, p) && hashing::update_value(other, p)
                        == hashing::update_value(hash, p);
                assert(a.contains(other));
            }
        }
        assert(state::values_at(a, p, i) =~= state::values_at(b, p, i));
    }
    assert(state::absorb_hashes(registers, a, p, d) =~= state::absorb_hashes(registers, b, p, d));
}

/// Inserting one more token inserts its hash.
pub proof fn lemma_token_hashes_insert(tokens: Set<u32>, token: u32)
    ensures
        state::token_hashes(tokens.insert(token)) == state::token_hashes(tokens).union(
            set![hashing::hash_of(token)],
        ),
{
    let more = tokens.insert(token);
    let want = state::token_hashes(tokens).union(set![hashing::hash_of(token)]);
    assert forall|hash: u64| state::token_hashes(more).contains(hash) == want.contains(hash) by {
        if state::token_hashes(more).contains(hash) {
            let t = choose|t: u32| #[trigger] more.contains(t) && hash == hashing::hash_of(t);
            if t != token {
                assert(tokens.contains(t));
            }
        }
        if state::token_hashes(tokens).contains(hash) {
            let t = choose|t: u32| #[trigger] tokens.contains(t) && hash == hashing::hash_of(t);
            assert(more.contains(t));
        }
        assert(more.contains(token));
    }
    assert(state::token_hashes(more) =~= want);
}

/// The hashes of a union of token sets.
pub proof fn lemma_token_hashes_union(a: Set<u32>, b: Set<u32>)
    ensures
        state::token_hashes(a.union(b)) == state::token_hashes(a).union(state::token_hashes(b)),
{
    let both = a.union(b);
    let want = state::token_hashes(a).union(state::token_hashes(b));
    assert forall|hash: u64| state::token_hashes(both).contains(hash) == want.contains(hash) by {
        if state::token_hashes(both).contains(hash) {
            let t = choose|t: u32| #[trigger] both.contains(t) && hash == hashing::hash_of(t);
            assert(a.contains(t) || b.contains(t));
        }
        if state::token_hashes(a).contains(hash) {
            let t = choose|t: u32| #[trigger] a.contains(t) && hash == hashing::hash_of(t);
            assert(both.contains(t));
        }
        if state::token_hashes(b).contains(hash) {
            let t = choose|t: u32| #[trigger] b.contains(t) && hash == hashing::hash_of(t);
            assert(both.contains(t));
        }
    }
    assert(state::token_hashes(both) =~= want);
}

/// The tokens of a list of hashes.
pub proof fn lemma_hash_tokens_list(hashes: Seq<u64>)
    ensures
        hashes.map_values(|hash: u64| hashing::token_of(hash)).to_set() == state::hash_tokens(
            hashes.to_set(),
        ),
{
    let f = |hash: u64| hashing::token_of(hash);
    hashes.lemma_to_set_map_commutes(f);
}

/// The tokens of the hashes of one more token.
pub proof fn lemma_retokenized_insert(tokens: Set<u32>, token: u32)
    ensures
        state::hash_tokens(state::token_hashes(tokens.insert(token))) == state::hash_tokens(
            state::token_hashes(tokens),
        ).insert(hashing::token_of(hashing::hash_of(token))),
{
    let more = state::hash_tokens(state::token_hashes(tokens.insert(token)));
    let base = state::hash_tokens(state::token_hashes(tokens));
    let added = hashing::token_of(hashing::hash_of(token));
    lemma_token_hashes_insert(tokens, token);
    let hs = state::token_hashes(tokens);
    let all = hs.union(set![hashing::hash_of(token)]);
    assert forall|t: u32| more.contains(t) == base.insert(added).contains(t) by {
        if more.contains(t) {
            let h = choose|h: u64| #[trigger] all.contains(h) && t == hashing::token_of(h);
            if !hs.contains(h) {
                assert(h == hashing::hash_of(token));
            }
        }
        if base.contains(t) {
            let h = choose|h: u64| #[trigger] hs.contains(h) && t == hashing::token_of(h);
            assert(all.contains(h));
        }
        assert(all.contains(hashing::hash_of(token)));
    }
    assert(more =~= base.insert(added));
}

/// Token sets stay finite.
pub proof fn lemma_retokenized_finite(tokens: Set<u32>)
    requires
        tokens.finite(),
    ensures
        state::hash_tokens(state::token_hashes(tokens)).finite(),
        state::token_hashes(tokens).finite(),
{
    tokens.lemma_map_finite(|token: u32| hashing::hash_of(token));
    state::token_hashes(tokens).lemma_map_finite(|hash: u64| hashing::token_of(hash));
}

} // verus!
