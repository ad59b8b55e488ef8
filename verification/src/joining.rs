//! What merging does: it joins the registers one by one, in any order.
//!
//! The laws hold of every sketch that inserts, merges and reductions give. Registers
//! that come in as bytes may hold what no insert could leave there; [`proper`] says
//! which of these merge like others.

use vstd::arithmetic::power2::*;
use vstd::prelude::*;

use crate::algebra;
use crate::hashing;
use crate::laws;
use crate::register;
use crate::state;
use crate::state::SketchView;
use crate::state::Variant;
use crate::MAX_P;
use crate::MIN_P;

verus! {

/// Whether a register counts the value 0, which an empty register starts from, the
/// way inserts do: nothing but 0 at first, and 0 in the window as long as it has
/// room for it.
pub open spec fn proper(r: u32, d: u32) -> bool {
    &&& register::top(r, d) == 0 ==> r == 0
    &&& 0 < register::top(r, d) <= d ==> register::recorded(r, d, 0)
}

/// Whether all registers of a sketch are proper.
pub open spec fn sound(view: SketchView, variant: Variant) -> bool {
    &&& MIN_P <= view.p <= MAX_P
    &&& view.registers.len() == pow2(view.p as nat)
    &&& forall|i: int|
        0 <= i < view.registers.len() ==> proper(#[trigger] view.registers[i], variant.d)
    &&& view.tokens matches Some(tokens) ==> view == SketchView::sparse(view.p, tokens, variant)
}

/// Inserts keep a register proper.
proof fn lemma_absorb_proper(r: u32, d: u32, values: Set<int>)
    requires
        1 <= d <= 24,
        proper(r, d),
        forall|v: int| #[trigger] values.contains(v) ==> 1 <= v <= u32::MAX >> d,
    ensures
        proper(register::absorb(r, d, values), d),
{
    let out = register::absorb(r, d, values);
    register::lemma_absorb_exists(r, d, values);
    if register::top(out, d) == 0 {
        laws::lemma_from_empty(out, d, values);
    } else if register::top(out, d) <= d {
        laws::lemma_empty_recorded(d, 0);
        assert(register::recorded(r, d, 0));
        assert(register::recorded(out, d, 0));
    }
}

/// An empty register adds nothing to a merge.
proof fn lemma_merge_zero(r: u32, d: u32)
    requires
        1 <= d <= 24,
    ensures
        register::merged(r, 0, d) == r,
        register::merged(0, r, d) == r,
{
    laws::lemma_empty_recorded(d, 0);
    assert(r | 0 == r && 0 | r == r) by (bit_vector);
}

/// Merging keeps registers proper.
proof fn lemma_merged_proper(x: u32, y: u32, d: u32)
    requires
        1 <= d <= 24,
        proper(x, d),
        proper(y, d),
    ensures
        proper(register::merged(x, y, d), d),
{
    lemma_merge_zero(x, d);
    lemma_merge_zero(y, d);
    if register::top(x, d) > 0 && register::top(y, d) > 0 {
        register::lemma_merge_exists(x, y, d);
        let out = register::merged(x, y, d);
        if register::top(out, d) <= d {
            assert(register::recorded(x, d, 0));
            assert(register::recorded(out, d, 0));
        }
    }
}

/// Inserting values into a proper register is merging it with a register that holds
/// just them.
proof fn lemma_absorb_is_merge(r: u32, d: u32, values: Set<int>)
    requires
        1 <= d <= 24,
        proper(r, d),
        forall|v: int| #[trigger] values.contains(v) ==> 1 <= v <= u32::MAX >> d,
    ensures
        register::merged(r, register::absorb(0, d, values), d) == register::absorb(r, d, values),
{
    let x = register::absorb(0, d, values);
    register::lemma_absorb_exists(0, d, values);
    laws::lemma_from_empty(x, d, values);
    lemma_merge_zero(r, d);
    lemma_merge_zero(x, d);
    if register::top(x, d) == 0 {
        register::lemma_absorb_exists(r, d, values);
        assert(register::absorbs(r, r, d, values)) by {
            assert forall|v: int| #[trigger]
                register::recorded(r, d, v) <==> (v >= register::top(r, d) - d && (
                register::recorded(r, d, v) || values.contains(v))) by {}
        }
        register::lemma_absorb_unique(r, r, r, d, values);
    } else if register::top(r, d) > 0 {
        let out = register::merged(r, x, d);
        let from_x = register::recorded_values(x, d);
        register::lemma_merge_exists(r, x, d);
        let t = register::top(out, d);
        assert(from_x.contains(register::top(x, d)));
        if t != register::top(r, d) {
            assert(from_x.contains(t));
            assert(register::recorded(x, d, t));
        }
        assert forall|v: int| #[trigger]
            register::recorded(out, d, v) <==> (v >= t - d && (register::recorded(r, d, v)
                || values.contains(v))) by {
            assert(from_x.contains(v) == register::recorded(x, d, v));
            assert(register::recorded(r, d, v) || !register::recorded(r, d, v));
            if v == 0 && t <= d {
                assert(register::recorded(r, d, 0));
            }
        }
        assert(register::absorbs(out, r, d, values));
        register::lemma_absorb_unique(out, out, r, d, values);
    }
}

/// A sketch that stands for hashes is sound.
pub proof fn represented_is_sound(view: SketchView, hashes: Set<u64>, variant: Variant)
    requires
        laws::ordinary(variant),
        laws::represents(view, hashes, variant),
    ensures
        sound(view, variant),
{
    let p = view.p;
    let d = variant.d;
    laws::lemma_empty_recorded(d, 0);
    assert forall|i: int| 0 <= i < view.registers.len() implies proper(
        #[trigger] view.registers[i],
        d,
    ) by {
        algebra::lemma_value_fits(d);
        algebra::lemma_values_in_range(hashes, p, i);
        lemma_absorb_proper(0, d, state::values_at(hashes, p, i));
    }
}

/// Inserting a hash keeps a sketch sound.
pub proof fn insert_keeps_sound(view: SketchView, hash: u64, variant: Variant)
    requires
        laws::ordinary(variant),
        sound(view, variant),
    ensures
        sound(view.with_hash(hash, variant), variant),
{
    let p = view.p;
    let d = variant.d;
    match view.tokens {
        Some(tokens) => {
            let more = tokens.insert(hashing::token_of(hash));
            laws::tokens_have_an_order(more);
            represented_is_sound(
                SketchView::sparse(p, more, variant),
                state::token_hashes(more),
                variant,
            );
        },
        None => {
            let out = view.with_hash(hash, variant).registers;
            assert forall|i: int| 0 <= i < out.len() implies proper(#[trigger] out[i], d) by {
                algebra::lemma_value_fits(d);
                algebra::lemma_values_in_range(set![hash], p, i);
                assert(proper(view.registers[i], d));
                lemma_absorb_proper(view.registers[i], d, state::values_at(set![hash], p, i));
            }
        },
    }
}

/// Merging joins the registers one by one, whether the sketches are sparse or dense.
pub proof fn merge_is_registerwise(a: SketchView, b: SketchView, variant: Variant)
    requires
        laws::ordinary(variant),
        sound(a, variant),
        sound(b, variant),
        a.p == b.p,
    ensures
        a.merge(b, variant).registers == state::merge_registers(
            a.registers,
            b.registers,
            variant.d,
        ),
        sound(a.merge(b, variant), variant),
        a.merge(b, variant).p == a.p,
{
    let p = a.p;
    let d = variant.d;
    let joined = state::merge_registers(a.registers, b.registers, d);
    match (a.tokens, b.tokens) {
        (Some(ta), Some(tb)) => {
            algebra::lemma_token_hashes_union(ta, tb);
            laws::merged_arrays_join_hashes(
                state::token_hashes(ta),
                state::token_hashes(tb),
                p,
                d,
            );
        },
        (None, Some(tb)) => {
            let hashes = state::token_hashes(tb);
            let out = a.merge(b, variant).registers;
            assert forall|i: int| 0 <= i < out.len() implies out[i] == joined[i] by {
                algebra::lemma_value_fits(d);
                algebra::lemma_values_in_range(hashes, p, i);
                assert(proper(a.registers[i], d));
                lemma_absorb_is_merge(a.registers[i], d, state::values_at(hashes, p, i));
            }
            assert(out =~= joined);
        },
        _ => {},
    }
    assert forall|i: int| 0 <= i < joined.len() implies proper(#[trigger] joined[i], d) by {
        assert(proper(a.registers[i], d) && proper(b.registers[i], d));
        lemma_merged_proper(a.registers[i], b.registers[i], d);
    }
}

/// Merging two register arrays gives the same registers either way, whatever they
/// hold.
pub proof fn merge_registers_commute(a: Seq<u32>, b: Seq<u32>, d: u32)
    requires
        1 <= d <= 24,
        a.len() == b.len(),
    ensures
        state::merge_registers(a, b, d) == state::merge_registers(b, a, d),
{
    let ab = state::merge_registers(a, b, d);
    let ba = state::merge_registers(b, a, d);
    assert forall|i: int| 0 <= i < ab.len() implies ab[i] == ba[i] by {
        lemma_merged_commutes(a[i], b[i], d);
    }
    assert(ab =~= ba);
}

proof fn lemma_merged_commutes(x: u32, y: u32, d: u32)
    requires
        1 <= d <= 24,
    ensures
        register::merged(x, y, d) == register::merged(y, x, d),
{
    if register::top(x, d) == 0 || register::top(y, d) == 0 {
        assert(x | y == y | x) by (bit_vector);
    } else {
        let xy = register::merged(x, y, d);
        let yx = register::merged(y, x, d);
        register::lemma_merge_exists(x, y, d);
        register::lemma_merge_exists(y, x, d);
        let vx = register::recorded_values(x, d);
        let vy = register::recorded_values(y, d);
        assert(vx.contains(register::top(x, d)));
        assert(vy.contains(register::top(y, d)));
        assert(register::top(xy, d) == register::top(yx, d)) by {
            if register::top(xy, d) != register::top(x, d) {
                assert(vy.contains(register::top(xy, d)));
                assert(register::recorded(y, d, register::top(xy, d)));
            }
            if register::top(yx, d) != register::top(y, d) {
                assert(vx.contains(register::top(yx, d)));
                assert(register::recorded(x, d, register::top(yx, d)));
            }
        }
        assert forall|v: int| #[trigger] register::recorded(xy, d, v) == register::recorded(
            yx,
            d,
            v,
        ) by {
            assert(vx.contains(v) == register::recorded(x, d, v));
            assert(vy.contains(v) == register::recorded(y, d, v));
        }
        register::lemma_recorded_determines(xy, yx, d);
    }
}

/// Merging three proper registers gives the same register either way.
proof fn lemma_merged_associates(x: u32, y: u32, z: u32, d: u32)
    requires
        1 <= d <= 24,
        proper(x, d),
        proper(y, d),
        proper(z, d),
    ensures
        register::merged(register::merged(x, y, d), z, d) == register::merged(
            x,
            register::merged(y, z, d),
            d,
        ),
{
    lemma_merge_zero(x, d);
    lemma_merge_zero(y, d);
    lemma_merge_zero(z, d);
    let xy = register::merged(x, y, d);
    let yz = register::merged(y, z, d);
    lemma_merge_zero(xy, d);
    lemma_merge_zero(yz, d);
    if register::top(x, d) > 0 && register::top(y, d) > 0 && register::top(z, d) > 0 {
        register::lemma_merge_exists(x, y, d);
        register::lemma_merge_exists(y, z, d);
        register::lemma_merge_exists(xy, z, d);
        register::lemma_merge_exists(x, yz, d);
        let left = register::merged(xy, z, d);
        let right = register::merged(x, yz, d);
        lemma_merged_top(x, y, d);
        lemma_merged_top(y, z, d);
        lemma_merged_top(xy, z, d);
        lemma_merged_top(x, yz, d);
        assert forall|v: int| #[trigger] register::recorded(left, d, v) == register::recorded(
            right,
            d,
            v,
        ) by {
            assert(register::recorded_values(y, d).contains(v) == register::recorded(y, d, v));
            assert(register::recorded_values(z, d).contains(v) == register::recorded(z, d, v));
            assert(register::recorded_values(yz, d).contains(v) == register::recorded(yz, d, v));
            assert(register::recorded(xy, d, v) <==> (v >= register::top(xy, d) - d && (
            register::recorded(x, d, v) || register::recorded(y, d, v))));
            assert(register::recorded(yz, d, v) <==> (v >= register::top(yz, d) - d && (
            register::recorded(y, d, v) || register::recorded(z, d, v))));
        }
        register::lemma_recorded_determines(left, right, d);
    }
}

/// The largest value of a merge is the larger one of the two.
proof fn lemma_merged_top(x: u32, y: u32, d: u32)
    requires
        1 <= d <= 24,
        register::top(x, d) > 0,
        register::top(y, d) > 0,
    ensures
        register::top(register::merged(x, y, d), d) == if register::top(x, d) >= register::top(
            y,
            d,
        ) {
            register::top(x, d)
        } else {
            register::top(y, d)
        },
{
    register::lemma_merge_exists(x, y, d);
    let out = register::merged(x, y, d);
    let vy = register::recorded_values(y, d);
    assert(vy.contains(register::top(y, d)));
    if register::top(out, d) != register::top(x, d) {
        assert(vy.contains(register::top(out, d)));
        assert(register::recorded(y, d, register::top(out, d)));
    }
}

/// Merging is commutative.
pub proof fn merge_is_commutative(a: SketchView, b: SketchView, variant: Variant)
    requires
        laws::ordinary(variant),
        sound(a, variant),
        sound(b, variant),
        a.p == b.p,
    ensures
        a.merge(b, variant).registers == b.merge(a, variant).registers,
        a.merge(b, variant).tokens == b.merge(a, variant).tokens,
{
    merge_is_registerwise(a, b, variant);
    merge_is_registerwise(b, a, variant);
    merge_registers_commute(a.registers, b.registers, variant.d);
    if let (Some(ta), Some(tb)) = (a.tokens, b.tokens) {
        assert(ta.union(tb) =~= tb.union(ta));
    }
}

/// Merging is associative.
pub proof fn merge_is_associative(a: SketchView, b: SketchView, c: SketchView, variant: Variant)
    requires
        laws::ordinary(variant),
        sound(a, variant),
        sound(b, variant),
        sound(c, variant),
        a.p == b.p == c.p,
    ensures
        a.merge(b, variant).merge(c, variant) == a.merge(b.merge(c, variant), variant),
{
    let d = variant.d;
    merge_is_registerwise(a, b, variant);
    merge_is_registerwise(b, c, variant);
    merge_is_registerwise(a.merge(b, variant), c, variant);
    merge_is_registerwise(a, b.merge(c, variant), variant);
    let left = a.merge(b, variant).merge(c, variant);
    let right = a.merge(b.merge(c, variant), variant);
    assert forall|i: int| 0 <= i < left.registers.len() implies left.registers[i]
        == right.registers[i] by {
        assert(proper(a.registers[i], d) && proper(b.registers[i], d) && proper(
            c.registers[i],
            d,
        ));
        lemma_merged_associates(a.registers[i], b.registers[i], c.registers[i], d);
    }
    assert(left.registers =~= right.registers);
    if let (Some(ta), Some(tb), Some(tc)) = (a.tokens, b.tokens, c.tokens) {
        let all = ta.union(tb).union(tc);
        assert(all =~= ta.union(tb.union(tc)));
        laws::tokens_have_an_order(all);
        vstd::set_lib::lemma_len_subset(ta.union(tb), all);
        vstd::set_lib::lemma_len_subset(tb.union(tc), all);
    }
}

/// Merging an empty sketch changes nothing in the registers, whatever they hold, and
/// merging into an empty sketch takes them over.
pub proof fn merge_with_empty_is_identity(a: SketchView, empty: SketchView, variant: Variant)
    requires
        laws::ordinary(variant),
        a.valid(variant),
        empty.valid(variant),
        empty.is_empty(),
        a.p == empty.p,
    ensures
        a.merge(empty, variant).registers == a.registers,
        empty.merge(a, variant).registers == a.registers,
{
    let p = a.p;
    let d = variant.d;
    if let Some(tokens) = empty.tokens {
        assert(state::token_hashes(tokens) =~= Set::empty());
        algebra::lemma_absorb_nothing(a.registers, p, d);
        algebra::lemma_absorb_nothing(state::empty_registers(p), p, d);
    }
    assert(empty.registers =~= state::empty_registers(p));
    assert forall|i: int| 0 <= i < a.registers.len() implies state::merge_registers(
        a.registers,
        empty.registers,
        d,
    )[i] == a.registers[i] && state::merge_registers(empty.registers, a.registers, d)[i]
        == a.registers[i] by {
        lemma_merge_zero(a.registers[i], d);
    }
    assert(state::merge_registers(a.registers, empty.registers, d) =~= a.registers);
    assert(state::merge_registers(empty.registers, a.registers, d) =~= a.registers);
    if let Some(tokens) = a.tokens {
        if let Some(none) = empty.tokens {
            assert(tokens.union(none) =~= tokens);
            assert(none.union(tokens) =~= tokens);
        } else {
            assert(state::absorb_hashes(empty.registers, state::token_hashes(tokens), p, d)
                == a.registers);
        }
    }
}

/// Merging a sketch with itself changes nothing in the registers, whatever they hold.
pub proof fn merge_is_idempotent(a: SketchView, variant: Variant)
    requires
        laws::ordinary(variant),
        a.valid(variant),
    ensures
        a.merge(a, variant).registers == a.registers,
{
    let d = variant.d;
    match a.tokens {
        Some(tokens) => {
            assert(tokens.union(tokens) =~= tokens);
        },
        None => {
            let out = a.merge(a, variant).registers;
            assert forall|i: int| 0 <= i < out.len() implies out[i] == a.registers[i] by {
                lemma_merged_with_itself(a.registers[i], d);
            }
            assert(out =~= a.registers);
        },
    }
}

proof fn lemma_merged_with_itself(r: u32, d: u32)
    requires
        1 <= d <= 24,
    ensures
        register::merged(r, r, d) == r,
{
    if register::top(r, d) == 0 {
        assert(r | r == r) by (bit_vector);
    } else {
        let values = register::recorded_values(r, d);
        register::lemma_merge_exists(r, r, d);
        assert(register::absorbs(r, r, d, values)) by {
            assert forall|v: int| #[trigger] values.contains(v) implies v <= register::top(
                r,
                d,
            ) by {
                assert(register::recorded(r, d, v));
            }
            assert forall|v: int| #[trigger]
                register::recorded(r, d, v) <==> (v >= register::top(r, d) - d && (
                register::recorded(r, d, v) || values.contains(v))) by {}
        }
        register::lemma_absorb_unique(register::merged(r, r, d), r, r, d, values);
    }
}

/// Merging a sketch that stands for some of the same hashes changes nothing in the
/// registers.
pub proof fn merge_absorbs_subset(
    a: SketchView,
    b: SketchView,
    ha: Set<u64>,
    hb: Set<u64>,
    variant: Variant,
)
    requires
        laws::ordinary(variant),
        laws::represents(a, ha, variant),
        laws::represents(b, hb, variant),
        a.p == b.p,
        hb.subset_of(ha),
    ensures
        a.merge(b, variant).registers == a.registers,
{
    laws::merge_joins_hashes(a, b, ha, hb, variant);
    assert(ha.union(hb) =~= ha);
}

} // verus!
