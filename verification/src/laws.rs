//! What holds of sketches as a whole: a sketch depends only on the set of hashes
//! that it stands for, whichever way they came in.

use vstd::arithmetic::div_mod::*;
use vstd::arithmetic::power2::*;
use vstd::prelude::*;
use vstd::std_specs::bits::*;

use crate::algebra;
use crate::bytes;
use crate::codec;
use crate::hashing;
use crate::register;
use crate::shared::Exchange;
use crate::state;
use crate::state::SketchView;
use crate::state::Variant;
use crate::storage::RegisterArray;
use crate::tokens;
use crate::MAX_P;
use crate::MIN_P;

verus! {

/// A sketch with the registers that inserting exactly `hashes` gives.
pub open spec fn represents(view: SketchView, hashes: Set<u64>, variant: Variant) -> bool {
    &&& MIN_P <= view.p <= MAX_P
    &&& view.registers == state::registers_of(hashes, view.p, variant.d)
    &&& view.tokens matches Some(tokens) ==> tokens.finite() && view == SketchView::sparse(
        view.p,
        tokens,
        variant,
    )
}

/// Parameters for which the window has room for the update values of one hash
/// level.
pub open spec fn ordinary(variant: Variant) -> bool {
    3 <= variant.d <= 24
}

/// Whether the token of a hash keeps all that `2^p` registers see of the hash.
pub open spec fn kept_by_token(hash: u64, p: u32) -> bool {
    let back = hashing::hash_of(hashing::token_of(hash));
    &&& hashing::register_index(back, p) == hashing::register_index(hash, p)
    &&& hashing::update_value(back, p) == hashing::update_value(hash, p)
}

/// Whether a sketch takes in all that its registers can see of `hashes`: it is
/// dense, or their tokens keep enough of them.
pub open spec fn takes_in(view: SketchView, hashes: Set<u64>) -> bool {
    view.tokens is None || forall|hash: u64| #[trigger]
        hashes.contains(hash) ==> kept_by_token(hash, view.p)
}

/// As long as the `p + 2` bits that select register and update value are among
/// the 26 bits that a token keeps, a token keeps what registers see of a hash.
pub proof fn token_keeps_update(hash: u64, p: u32)
    requires
        p + 2 <= 26,
    ensures
        kept_by_token(hash, p),
{
    hashing::lemma_token_round_trip(hash);
    let back = hashing::hash_of(hashing::token_of(hash));
    lemma_index_of_low_bits(hash, p);
    lemma_index_of_low_bits(back, p);
}

/// The register index depends on the low 26 bits only.
proof fn lemma_index_of_low_bits(hash: u64, p: u32)
    requires
        p <= 24,
    ensures
        hashing::register_index(hash, p) == ((hash as int % 0x400_0000) / 4) % (pow2(
            p as nat,
        ) as int),
        hash as int % 4 == (hash as int % 0x400_0000) % 4,
{
    let m = pow2(p as nat) as int;
    let k = pow2((24 - p) as nat) as int;
    lemma_pow2_pos(p as nat);
    lemma_pow2_adds(p as nat, (24 - p) as nat);
    lemma2_to64();
    let q = hash as int / 0x400_0000;
    let low = hash as int % 0x400_0000;
    assert(hash as int / 4 == q * 0x100_0000 + low / 4);
    assert(q * 0x100_0000 == (q * k) * m) by (nonlinear_arith)
        requires
            m * k == 0x100_0000,
    ;
    lemma_mod_multiples_vanish(q * k, low / 4, m);
    assert(m * (q * k) + low / 4 == hash as int / 4) by (nonlinear_arith)
        requires
            hash as int / 4 == (q * k) * m + low / 4,
    ;
}

/// An empty register records the value 0 and nothing else.
pub proof fn lemma_empty_recorded(d: u32, v: int)
    requires
        1 <= d <= 24,
    ensures
        register::top(0, d) == 0,
        register::recorded(0, d, v) <==> v == 0,
{
    assert(0u32 >> d == 0) by (bit_vector);
    if -d <= v < 0 {
        let pos = (v + d) as u32;
        assert((0u32 >> pos) & 1 != 1) by (bit_vector);
    }
}

/// What a register records after inserts into an empty one.
pub proof fn lemma_from_empty(r: u32, d: u32, values: Set<int>)
    requires
        1 <= d <= 24,
        register::absorbs(r, 0, d, values),
        forall|v: int| #[trigger] values.contains(v) ==> 1 <= v,
    ensures
        forall|v: int| #[trigger]
            register::recorded(r, d, v) <==> (v >= register::top(r, d) - d && (v == 0
                || values.contains(v))),
        register::top(r, d) == 0 ==> r == 0 && values =~= Set::empty(),
        register::top(r, d) > 0 ==> values.contains(register::top(r, d)),
        forall|v: int| #[trigger] values.contains(v) ==> v <= register::top(r, d),
{
    assert forall|v: int| #[trigger]
        register::recorded(r, d, v) <==> (v >= register::top(r, d) - d && (v == 0
            || values.contains(v))) by {
        lemma_empty_recorded(d, v);
    }
    lemma_empty_recorded(d, 0);
    if register::top(r, d) == 0 {
        assert forall|v: int| #[trigger] values.contains(v) implies false by {
            assert(v <= register::top(r, d));
        }
        assert(values =~= Set::empty());
        assert(register::absorbs(0, 0, d, values));
        register::lemma_absorb_unique(r, 0, 0, d, values);
    }
}

/// Merging registers joins the values that went into them.
pub proof fn merged_registers_join_values(d: u32, a: Set<int>, b: Set<int>)
    requires
        1 <= d <= 24,
        forall|v: int| #[trigger] a.contains(v) ==> 1 <= v <= u32::MAX >> d,
        forall|v: int| #[trigger] b.contains(v) ==> 1 <= v <= u32::MAX >> d,
    ensures
        register::merged(register::absorb(0, d, a), register::absorb(0, d, b), d)
            == register::absorb(0, d, a.union(b)),
{
    let ra = register::absorb(0, d, a);
    let rb = register::absorb(0, d, b);
    register::lemma_absorb_exists(0, d, a);
    register::lemma_absorb_exists(0, d, b);
    lemma_from_empty(ra, d, a);
    lemma_from_empty(rb, d, b);
    if register::top(ra, d) == 0 {
        assert(a.union(b) =~= b);
        assert(0u32 | rb == rb) by (bit_vector);
    } else if register::top(rb, d) == 0 {
        assert(a.union(b) =~= a);
        assert(ra | 0u32 == ra) by (bit_vector);
    } else {
        let vb = register::recorded_values(rb, d);
        assert forall|v: int| #[trigger] vb.contains(v) implies 0 <= v <= u32::MAX >> d by {
            assert(register::recorded(rb, d, v));
        }
        register::lemma_absorb_exists(ra, d, vb);
        let out = register::absorb(ra, d, vb);
        let both = a.union(b);
        assert(register::recorded(rb, d, register::top(rb, d)));
        assert(vb.contains(register::top(rb, d)));
        assert(register::top(out, d) == register::top(ra, d) || register::top(out, d)
            == register::top(rb, d)) by {
            if register::top(out, d) != register::top(ra, d) {
                assert(vb.contains(register::top(out, d)));
                assert(register::recorded(rb, d, register::top(out, d)));
            }
        }
        lemma_empty_recorded(d, 0);
        assert forall|v: int| #[trigger]
            register::recorded(out, d, v) <==> (v >= register::top(out, d) - d && (
            register::recorded(0, d, v) || both.contains(v))) by {
            lemma_empty_recorded(d, v);
            assert(register::recorded(ra, d, v) <==> (v >= register::top(ra, d) - d && (v == 0
                || a.contains(v))));
            assert(vb.contains(v) <==> register::recorded(rb, d, v));
        }
        assert(register::absorbs(out, 0, d, both));
        register::lemma_absorb_unique(out, out, 0, d, both);
    }
}

/// Merging register arrays joins the hashes that went into them.
pub proof fn merged_arrays_join_hashes(a: Set<u64>, b: Set<u64>, p: u32, d: u32)
    requires
        p <= MAX_P,
        1 <= d <= 24,
    ensures
        state::merge_registers(state::registers_of(a, p, d), state::registers_of(b, p, d), d)
            == state::registers_of(a.union(b), p, d),
{
    let out = state::merge_registers(
        state::registers_of(a, p, d),
        state::registers_of(b, p, d),
        d,
    );
    let want = state::registers_of(a.union(b), p, d);
    assert forall|i: int| 0 <= i < out.len() implies out[i] == want[i] by {
        algebra::lemma_value_fits(d);
        algebra::lemma_values_in_range(a, p, i);
        algebra::lemma_values_in_range(b, p, i);
        algebra::lemma_values_union(a, b, p, i);
        merged_registers_join_values(d, state::values_at(a, p, i), state::values_at(b, p, i));
    }
    assert(out =~= want);
}

/// Tokens of hashes stand for the hashes.
proof fn lemma_tokens_of_hashes(hashes: Set<u64>, p: u32, d: u32, registers: Seq<u32>)
    requires
        forall|hash: u64| #[trigger] hashes.contains(hash) ==> kept_by_token(hash, p),
    ensures
        state::absorb_hashes(registers, state::token_hashes(state::hash_tokens(hashes)), p, d)
            == state::absorb_hashes(registers, hashes, p, d),
{
    let toks = state::hash_tokens(hashes);
    let back = state::token_hashes(toks);
    assert forall|hash: u64| #[trigger] back.contains(hash) implies exists|other: u64| #[trigger]
        hashes.contains(other) && hashing::register_index(other, p) == hashing::register_index(
            hash,
            p,
        ) && hashing::update_value(other, p) == hashing::update_value(hash, p) by {
        let t = choose|t: u32| #[trigger] toks.contains(t) && hash == hashing::hash_of(t);
        let other = choose|other: u64| #[trigger]
            hashes.contains(other) && t == hashing::token_of(other);
        assert(hashes.contains(other));
    }
    assert forall|hash: u64| #[trigger] hashes.contains(hash) implies exists|other: u64| #[trigger]
        back.contains(other) && hashing::register_index(other, p) == hashing::register_index(
            hash,
            p,
        ) && hashing::update_value(other, p) == hashing::update_value(hash, p) by {
        let t = hashing::token_of(hash);
        assert(toks.contains(t));
        assert(back.contains(hashing::hash_of(t)));
    }
    algebra::lemma_absorb_same_updates(registers, back, hashes, p, d);
}

/// Adding tokens to a sparse sketch adds the hashes that stand for them.
proof fn lemma_sparse_union(
    view: SketchView,
    hashes: Set<u64>,
    tokens: Set<u32>,
    more: Set<u32>,
    variant: Variant,
)
    requires
        ordinary(variant),
        represents(view, hashes, variant),
        view.tokens == Some(tokens),
        more.finite(),
    ensures
        represents(
            SketchView::settled(view.p, tokens.union(more), variant),
            hashes.union(state::token_hashes(more)),
            variant,
        ),
{
    let p = view.p;
    let d = variant.d;
    let empty = state::empty_registers(p);
    algebra::lemma_token_hashes_union(tokens, more);
    algebra::lemma_absorb_union(
        empty,
        state::token_hashes(tokens),
        state::token_hashes(more),
        p,
        d,
    );
    algebra::lemma_absorb_union(empty, hashes, state::token_hashes(more), p, d);
}

/// A new sketch stands for no hashes.
pub proof fn new_represents_nothing(p: u32, variant: Variant)
    requires
        MIN_P <= p <= MAX_P,
        ordinary(variant),
    ensures
        represents(SketchView::sparse(p, Set::empty(), variant), Set::empty(), variant),
        represents(
            SketchView::dense(p, state::empty_registers(p), true),
            Set::empty(),
            variant,
        ),
{
    assert(state::token_hashes(Set::empty()) =~= Set::empty());
    algebra::lemma_absorb_nothing(state::empty_registers(p), p, variant.d);
}

/// Inserting a hash adds it to what the sketch stands for: always in dense mode,
/// and in sparse mode if its token keeps what the registers see of it.
pub proof fn insert_adds_hash(view: SketchView, hashes: Set<u64>, hash: u64, variant: Variant)
    requires
        ordinary(variant),
        represents(view, hashes, variant),
        view.tokens is None || kept_by_token(hash, view.p),
    ensures
        represents(view.with_hash(hash, variant), hashes.union(set![hash]), variant),
{
    let p = view.p;
    let d = variant.d;
    let empty = state::empty_registers(p);
    algebra::lemma_absorb_union(empty, hashes, set![hash], p, d);
    if let Some(tokens) = view.tokens {
        let token = hashing::token_of(hash);
        let more = set![token];
        lemma_sparse_union(view, hashes, tokens, more, variant);
        assert(tokens.union(more) =~= tokens.insert(token));
        assert(state::hash_tokens(set![hash]) =~= more) by {
            assert(set![hash].contains(hash));
        }
        lemma_tokens_of_hashes(set![hash], p, d, state::registers_of(hashes, p, d));
        algebra::lemma_absorb_union(empty, hashes, state::token_hashes(more), p, d);
        if tokens.contains(token) {
            assert(tokens.insert(token) =~= tokens);
        }
    }
}

/// Inserting a batch adds all its hashes.
pub proof fn batch_adds_hashes(
    view: SketchView,
    hashes: Set<u64>,
    added: Set<u64>,
    variant: Variant,
)
    requires
        ordinary(variant),
        represents(view, hashes, variant),
        added.finite(),
        takes_in(view, added),
    ensures
        represents(view.with_hashes(added, variant), hashes.union(added), variant),
{
    let p = view.p;
    let d = variant.d;
    let empty = state::empty_registers(p);
    algebra::lemma_absorb_union(empty, hashes, added, p, d);
    if let Some(tokens) = view.tokens {
        let more = state::hash_tokens(added);
        added.lemma_map_finite(|hash: u64| hashing::token_of(hash));
        lemma_sparse_union(view, hashes, tokens, more, variant);
        lemma_tokens_of_hashes(added, p, d, state::registers_of(hashes, p, d));
        algebra::lemma_absorb_union(empty, hashes, state::token_hashes(more), p, d);
    }
}

/// Inserting a batch register by register adds all its hashes.
pub proof fn sorted_batch_adds_hashes(
    view: SketchView,
    hashes: Set<u64>,
    added: Set<u64>,
    variant: Variant,
)
    requires
        ordinary(variant),
        represents(view, hashes, variant),
    ensures
        represents(view.with_hashes_dense(added, variant), hashes.union(added), variant),
{
    algebra::lemma_absorb_union(
        state::empty_registers(view.p),
        hashes,
        added,
        view.p,
        variant.d,
    );
}

/// The sketch after hashes have been inserted one after the other.
pub open spec fn inserted(view: SketchView, hashes: Seq<u64>, variant: Variant) -> SketchView
    decreases hashes.len(),
{
    if hashes.len() == 0 {
        view
    } else {
        inserted(view, hashes.drop_last(), variant).with_hash(hashes.last(), variant)
    }
}

/// Inserting hashes one after the other adds them all.
pub proof fn inserts_add_hashes(
    view: SketchView,
    hashes: Set<u64>,
    added: Seq<u64>,
    variant: Variant,
)
    requires
        ordinary(variant),
        represents(view, hashes, variant),
        takes_in(view, added.to_set()),
    ensures
        represents(inserted(view, added, variant), hashes.union(added.to_set()), variant),
        inserted(view, added, variant).p == view.p,
        view.tokens is None ==> inserted(view, added, variant).tokens is None,
    decreases added.len(),
{
    if added.len() == 0 {
        assert(hashes.union(added.to_set()) =~= hashes);
    } else {
        let rest = added.drop_last();
        assert(rest.to_set().subset_of(added.to_set())) by {
            assert forall|hash: u64| rest.to_set().contains(hash) implies added.to_set().contains(
                hash,
            ) by {
                let i = choose|i: int| 0 <= i < rest.len() && rest[i] == hash;
                assert(added[i] == hash);
            }
        }
        assert(added.to_set().contains(added.last()));
        inserts_add_hashes(view, hashes, rest, variant);
        insert_adds_hash(
            inserted(view, rest, variant),
            hashes.union(rest.to_set()),
            added.last(),
            variant,
        );
        assert(added =~= rest.push(added.last()));
        rest.lemma_push_to_set_commute(added.last());
        assert(hashes.union(added.to_set()) =~= hashes.union(rest.to_set()).union(
            set![added.last()],
        ));
    }
}

/// Inserting hashes one after the other gives the registers that record them all.
pub proof fn inserts_record_hashes(view: SketchView, added: Seq<u64>, variant: Variant)
    requires
        ordinary(variant),
        view.valid(variant),
        takes_in(view, added.to_set()),
    ensures
        inserted(view, added, variant).registers == state::absorb_hashes(
            view.registers,
            added.to_set(),
            view.p,
            variant.d,
        ),
        view.tokens is None ==> inserted(view, added, variant).tokens is None,
        view.tokens is None ==> inserted(view, added, variant).p == view.p,
    decreases added.len(),
{
    let p = view.p;
    let d = variant.d;
    match view.tokens {
        Some(tokens) => {
            let hashes = state::token_hashes(tokens);
            inserts_add_hashes(view, hashes, added, variant);
            algebra::lemma_absorb_union(
                state::empty_registers(p),
                hashes,
                added.to_set(),
                p,
                d,
            );
        },
        None => {
            if added.len() == 0 {
                assert(added.to_set() =~= Set::empty());
                algebra::lemma_absorb_nothing(view.registers, p, d);
            } else {
                let rest = added.drop_last();
                inserts_record_hashes(view, rest, variant);
                assert(added =~= rest.push(added.last()));
                rest.lemma_push_to_set_commute(added.last());
                assert(added.to_set() =~= rest.to_set().union(set![added.last()]));
                algebra::lemma_absorb_union(
                    view.registers,
                    rest.to_set(),
                    set![added.last()],
                    p,
                    d,
                );
            }
        },
    }
}

/// Order and repetition of inserts do not matter to the registers.
pub proof fn insert_order_is_irrelevant(
    view: SketchView,
    a: Seq<u64>,
    b: Seq<u64>,
    variant: Variant,
)
    requires
        ordinary(variant),
        view.valid(variant),
        takes_in(view, a.to_set()),
        a.to_set() == b.to_set(),
    ensures
        inserted(view, a, variant).registers == inserted(view, b, variant).registers,
{
    inserts_record_hashes(view, a, variant);
    inserts_record_hashes(view, b, variant);
}

/// A batch gives the registers that inserting its hashes one by one gives.
pub proof fn batch_matches_single_inserts(view: SketchView, added: Seq<u64>, variant: Variant)
    requires
        ordinary(variant),
        view.valid(variant),
        takes_in(view, added.to_set()),
    ensures
        view.with_hashes(added.to_set(), variant).registers == inserted(
            view,
            added,
            variant,
        ).registers,
        view.with_hashes_dense(added.to_set(), variant).registers == inserted(
            view,
            added,
            variant,
        ).registers,
{
    inserts_record_hashes(view, added, variant);
    if let Some(tokens) = view.tokens {
        let hashes = state::token_hashes(tokens);
        vstd::seq_lib::seq_to_set_is_finite(added);
        batch_adds_hashes(view, hashes, added.to_set(), variant);
        algebra::lemma_absorb_union(
            state::empty_registers(view.p),
            hashes,
            added.to_set(),
            view.p,
            variant.d,
        );
    }
}

/// A sparse and a dense sketch with the same inserts have the same registers.
pub proof fn sparse_and_dense_agree(p: u32, hashes: Seq<u64>, variant: Variant)
    requires
        MIN_P <= p <= MAX_P,
        forall|hash: u64| #[trigger] hashes.to_set().contains(hash) ==> kept_by_token(hash, p),
        ordinary(variant),
    ensures
        inserted(SketchView::sparse(p, Set::empty(), variant), hashes, variant).registers
            == inserted(
            SketchView::dense(p, state::empty_registers(p), true),
            hashes,
            variant,
        ).registers,
{
    new_represents_nothing(p, variant);
    inserts_add_hashes(
        SketchView::sparse(p, Set::empty(), variant),
        Set::empty(),
        hashes,
        variant,
    );
    inserts_add_hashes(
        SketchView::dense(p, state::empty_registers(p), true),
        Set::empty(),
        hashes,
        variant,
    );
}

/// Merging joins what the two sketches stand for.
pub proof fn merge_joins_hashes(
    a: SketchView,
    b: SketchView,
    ha: Set<u64>,
    hb: Set<u64>,
    variant: Variant,
)
    requires
        ordinary(variant),
        represents(a, ha, variant),
        represents(b, hb, variant),
        a.p == b.p,
    ensures
        represents(a.merge(b, variant), ha.union(hb), variant),
        a.merge(b, variant).p == a.p,
{
    let p = a.p;
    let d = variant.d;
    let empty = state::empty_registers(p);
    merged_arrays_join_hashes(ha, hb, p, d);
    match (a.tokens, b.tokens) {
        (Some(ta), Some(tb)) => {
            lemma_sparse_union(a, ha, ta, tb, variant);
            merged_arrays_join_hashes(ha, state::token_hashes(tb), p, d);
        },
        (None, Some(tb)) => {
            algebra::lemma_absorb_union(empty, ha, state::token_hashes(tb), p, d);
            merged_arrays_join_hashes(ha, state::token_hashes(tb), p, d);
        },
        _ => {},
    }
}

/// Inserting a hash again changes nothing, unless the first insert made a sparse
/// sketch dense and the token did not keep all of the hash.
pub proof fn insert_is_idempotent(view: SketchView, hash: u64, variant: Variant)
    requires
        ordinary(variant),
        view.p <= MAX_P,
        view.tokens is None || view.with_hash(hash, variant).tokens is Some || kept_by_token(
            hash,
            view.p,
        ),
    ensures
        view.with_hash(hash, variant).with_hash(hash, variant) == view.with_hash(hash, variant),
{
    let p = view.p;
    let d = variant.d;
    match view.tokens {
        None => {
            algebra::lemma_absorb_union(view.registers, set![hash], set![hash], p, d);
            assert(set![hash].union(set![hash]) =~= set![hash]);
        },
        Some(tokens) => {
            let token = hashing::token_of(hash);
            let once = view.with_hash(hash, variant);
            if once.tokens is None {
                let back = hashing::hash_of(token);
                let empty = state::empty_registers(p);
                let before = state::token_hashes(tokens);
                assert(state::hash_tokens(set![hash]) =~= set![token]) by {
                    assert(set![hash].contains(hash));
                }
                assert(state::token_hashes(set![token]) =~= set![back]) by {
                    assert(set![token].contains(token));
                }
                lemma_tokens_of_hashes(set![hash], p, d, once.registers);
                algebra::lemma_token_hashes_insert(tokens, token);
                algebra::lemma_absorb_union(empty, before, set![back], p, d);
                algebra::lemma_absorb_union(empty, before.union(set![back]), set![back], p, d);
                assert(before.union(set![back]).union(set![back]) =~= before.union(set![back]));
            }
        },
    }
}

/// Making a sketch dense keeps its registers, and doing so again does nothing.
pub proof fn densify_keeps_registers(view: SketchView)
    ensures
        view.densified().registers == view.registers,
        view.densified().p == view.p,
        view.densified().tokens is None,
        view.densified().densified() == view.densified(),
{
}

/// Some strictly increasing list holds exactly the elements of a set below `n`.
proof fn lemma_ascending_below(tokens: Set<u32>, n: nat) -> (s: Seq<u32>)
    requires
        n <= 0x1_0000_0000,
    ensures
        state::strictly_increasing(s),
        forall|t: u32| #[trigger] s.to_set().contains(t) <==> (tokens.contains(t) && t < n),
    decreases n,
{
    if n == 0 {
        Seq::empty()
    } else {
        let x = (n - 1) as u32;
        let s = lemma_ascending_below(tokens, (n - 1) as nat);
        if tokens.contains(x) {
            assert forall|i: int| 0 <= i < s.len() implies s[i] < x by {
                assert(s.to_set().contains(s[i]));
            }
            s.lemma_push_to_set_commute(x);
            s.push(x)
        } else {
            s
        }
    }
}

/// Every set of tokens is finite and has an ascending order.
pub proof fn tokens_have_an_order(tokens: Set<u32>)
    ensures
        tokens.finite(),
        state::strictly_increasing(state::ascending(tokens)),
        state::ascending(tokens).to_set() == tokens,
        state::ascending(tokens).len() == tokens.len(),
{
    let s = lemma_ascending_below(tokens, 0x1_0000_0000);
    assert(s.to_set() =~= tokens);
    vstd::seq_lib::seq_to_set_is_finite(s);
    tokens::lemma_increasing_len(state::ascending(tokens));
}

/// A sketch can be read back from its byte form: mode, precision, tokens and
/// registers are the same, and only the martingale estimator is lost.
pub proof fn bytes_round_trip<R: RegisterArray>(view: SketchView)
    requires
        view.valid(R::variant()),
    ensures
        codec::decode_error::<R>(codec::encoded::<R>(view)) is None,
        codec::decoded::<R>(codec::encoded::<R>(view)) == (SketchView { martingale: false, ..view }),
{
    let b = codec::encoded::<R>(view);
    R::variant_bounds();
    assert(b.take(4) =~= codec::magic());
    match view.tokens {
        Some(tokens) => {
            tokens_have_an_order(tokens);
            let list = state::ascending(tokens);
            let count = seq![tokens.len() as u32];
            bytes::lemma_le_bytes_word(count, 0);
            assert(b.subrange(8, 12) =~= bytes::le_bytes(count));
            assert(bytes::le_word(b, 8) == bytes::le_word(b.subrange(8, 12), 0));
            assert(codec::announced_tokens(b) == tokens.len());
            assert(b.skip(12) =~= bytes::le_bytes(list));
            bytes::lemma_words_of_bytes(list);
        },
        None => {
            lemma_pow2_unfold(view.p as nat);
            R::layout_len(view.registers);
            R::layout_words(view.registers);
            assert(b.skip(8) =~= R::layout(view.registers));
        },
    }
}

/// Bytes that hold a dense sketch are the byte form of that sketch.
pub proof fn dense_bytes_are_canonical<R: RegisterArray>(b: Seq<u8>)
    requires
        codec::decode_error::<R>(b) is None,
        !codec::is_sparse_form(b),
    ensures
        codec::encoded::<R>(codec::decoded::<R>(b)) == b,
{
    let p = b[7] as u32;
    R::variant_bounds();
    lemma_pow2_unfold(p as nat);
    let pairs = pow2((p - 1) as nat);
    let n = R::variant().pair_bytes as int;
    assert((2 * pairs) * n == 2 * (pairs * n)) by (nonlinear_arith);
    let payload = b.skip(8);
    R::words_layout(payload, pairs);
    assert(b.take(4)[0] == b[0] && b.take(4)[1] == b[1] && b.take(4)[2] == b[2] && b.take(4)[3]
        == b[3]);
    assert(b =~= codec::header(codec::FORMAT_VERSION, R::variant().d, p) + payload);
}

/// A register word after update values have been exchanged into it one after the
/// other.
pub open spec fn exchanged(word: u32, values: Seq<int>, d: u32) -> u32
    decreases values.len(),
{
    if values.len() == 0 {
        word
    } else {
        register::absorb(exchanged(word, values.drop_last(), d), d, set![values.last()])
    }
}

/// However many threads exchange a register word, and in whichever order they get
/// through, it records all their values.
pub proof fn exchanges_record_all(word: u32, values: Seq<int>, d: u32)
    requires
        1 <= d <= 24,
        forall|v: int| #[trigger] values.contains(v) ==> 0 <= v <= u32::MAX >> d,
    ensures
        register::absorbs(exchanged(word, values, d), word, d, values.to_set()),
        exchanged(word, values, d) == register::absorb(word, d, values.to_set()),
    decreases values.len(),
{
    let out = exchanged(word, values, d);
    if values.len() == 0 {
        assert(values.to_set() =~= Set::empty());
        assert(register::absorbs(word, word, d, Set::empty())) by {
            assert forall|v: int| #[trigger]
                register::recorded(word, d, v) <==> (v >= register::top(word, d) - d && (
                register::recorded(word, d, v) || Set::<int>::empty().contains(v))) by {}
        }
    } else {
        let rest = values.drop_last();
        let v = values.last();
        assert(values.contains(v));
        assert forall|w: int| #[trigger] rest.contains(w) implies 0 <= w <= u32::MAX >> d by {
            let i = choose|i: int| 0 <= i < rest.len() && rest[i] == w;
            assert(values[i] == w);
            assert(values.contains(w));
        }
        exchanges_record_all(word, rest, d);
        let mid = exchanged(word, rest, d);
        register::lemma_absorb_exists(mid, d, set![v]);
        register::lemma_absorb_compose(out, mid, word, d, rest.to_set(), set![v]);
        assert(values =~= rest.push(v));
        rest.lemma_push_to_set_commute(v);
        assert(rest.to_set().union(set![v]) =~= values.to_set());
    }
    register::lemma_absorb_unique(out, out, word, d, values.to_set());
}

/// Hashes inserted by exchanges, register by register and in any order, leave the
/// registers that inserting them into the sketch gives.
pub proof fn exchanges_match_inserts(
    view: SketchView,
    hashes: Set<u64>,
    values: Seq<Seq<int>>,
    words: Seq<u32>,
    variant: Variant,
)
    requires
        ordinary(variant),
        view.p <= MAX_P,
        words.len() == view.registers.len(),
        forall|i: int|
            0 <= i < words.len() ==> values[i].to_set() == #[trigger] state::values_at(
                hashes,
                view.p,
                i,
            ),
        forall|i: int|
            0 <= i < words.len() ==> #[trigger] words[i] == exchanged(
                view.registers[i],
                values[i],
                variant.d,
            ),
    ensures
        words == view.with_hashes_dense(hashes, variant).registers,
{
    let want = view.with_hashes_dense(hashes, variant).registers;
    assert forall|i: int| 0 <= i < words.len() implies words[i] == want[i] by {
        algebra::lemma_value_fits(variant.d);
        algebra::lemma_values_in_range(hashes, view.p, i);
        assert(values[i].to_set() == state::values_at(hashes, view.p, i));
        assert forall|v: int| #[trigger] values[i].contains(v) implies 0 <= v <= u32::MAX
            >> variant.d by {
            assert(values[i].to_set().contains(v));
        }
        exchanges_record_all(view.registers[i], values[i], variant.d);
    }
    assert(words =~= want);
}

/// Register words after inserts by exchange, in the order in which they got through.
/// Each one found the word that those before it had left.
pub open spec fn replayed(words: Seq<u32>, done: Seq<Exchange>) -> Seq<u32>
    decreases done.len(),
{
    if done.len() == 0 {
        words
    } else {
        replayed(words, done.drop_last()).update(done.last().register as int, done.last().after)
    }
}

/// Whether each insert found the word that those before it had left.
pub open spec fn in_turn(words: Seq<u32>, done: Seq<Exchange>) -> bool {
    forall|n: int|
        0 <= n < done.len() ==> (#[trigger] done[n]).before == replayed(
            words,
            done.take(n),
        )[done[n].register as int]
}

/// Inserts by exchange that follow one another, each with the outcome that its contract
/// states, leave the registers that inserting the same hashes into the sketch gives.
pub proof fn exchanges_in_turn_match_inserts(
    view: SketchView,
    hashes: Seq<u64>,
    done: Seq<Exchange>,
    variant: Variant,
)
    requires
        ordinary(variant),
        view.p <= MAX_P,
        view.tokens is None,
        view.registers.len() == pow2(view.p as nat),
        done.len() == hashes.len(),
        in_turn(view.registers, done),
        forall|n: int|
            0 <= n < done.len() ==> (#[trigger] done[n]).register == hashing::register_index(
                hashes[n],
                view.p,
            ) && done[n].after == register::absorb(
                done[n].before,
                variant.d,
                set![hashing::update_value(hashes[n], view.p)],
            ),
    ensures
        replayed(view.registers, done) == inserted(view, hashes, variant).registers,
        inserted(view, hashes, variant).tokens is None,
        inserted(view, hashes, variant).p == view.p,
        replayed(view.registers, done).len() == view.registers.len(),
    decreases done.len(),
{
    if done.len() > 0 {
        let last = done.len() - 1;
        let rest = done.drop_last();
        let before = hashes.drop_last();
        assert(done.take(last) =~= rest);
        assert forall|n: int| 0 <= n < rest.len() implies (#[trigger] rest[n]).before == replayed(
            view.registers,
            rest.take(n),
        )[rest[n].register as int] by {
            assert(rest[n] == done[n]);
            assert(rest.take(n) =~= done.take(n));
        }
        assert forall|n: int| 0 <= n < rest.len() implies (#[trigger] rest[n]).register
            == hashing::register_index(before[n], view.p) && rest[n].after == register::absorb(
            rest[n].before,
            variant.d,
            set![hashing::update_value(before[n], view.p)],
        ) by {
            assert(rest[n] == done[n] && before[n] == hashes[n]);
        }
        exchanges_in_turn_match_inserts(view, before, rest, variant);
        let words = replayed(view.registers, rest);
        assert(done[last].before == words[done[last].register as int]);
        algebra::lemma_absorb_one(words, hashes.last(), view.p, variant.d);
    }
}

} // verus!
