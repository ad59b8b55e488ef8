//! What the weights of registers mean: they are the probabilities that the next
//! hash changes something, and every change lowers them.

use vstd::arithmetic::power2::*;
use vstd::prelude::*;

use crate::algebra;
use crate::hashing;
use crate::laws;
use crate::likelihood;
use crate::register;
use crate::state;
use crate::state::SketchView;
use crate::state::Variant;
use crate::MAX_P;

verus! {

/// Probability, scaled by `2^(64-p)`, of the update values in `1..=hi` that
/// change the register `r`.
pub open spec fn changing_weight(r: u32, p: u32, d: u32, hi: int) -> int
    decreases hi,
{
    if hi <= 0 {
        0
    } else {
        changing_weight(r, p, d, hi - 1) + if register::absorb(r, d, set![hi]) == r {
            0
        } else {
            likelihood::value_weight(hi, p)
        }
    }
}

/// Whether no register records more than a hash can bring.
pub open spec fn in_range(registers: Seq<u32>, p: u32, d: u32) -> bool {
    forall|i: int|
        0 <= i < registers.len() ==> register::top(#[trigger] registers[i], d)
            <= hashing::max_update_value(p)
}

/// Levels rise by one with every four update values, up to the last level, which takes
/// all values that are left.
pub proof fn levels_rise_with_values(k: int, p: u32)
    requires
        1 <= k,
        p <= MAX_P,
    ensures
        likelihood::phi_of(0, p) == 2,
        k <= 4 ==> likelihood::phi_of(k, p) == 3,
        likelihood::phi_of(k + 4, p) == if likelihood::phi_of(k, p) < 64 - p {
            likelihood::phi_of(k, p) + 1
        } else {
            64 - p
        },
{
}

/// An update value changes nothing if it is recorded, or too far down to be.
proof fn lemma_unchanged(r: u32, d: u32, k: int)
    requires
        1 <= d <= 24,
        0 <= k <= u32::MAX >> d,
    ensures
        register::absorb(r, d, set![k]) == r <==> (k <= register::top(r, d) && (
        register::recorded(r, d, k) || k < register::top(r, d) - d)),
{
    let out = register::absorb(r, d, set![k]);
    register::lemma_absorb_exists(r, d, set![k]);
    assert(set![k].contains(k));
    if k <= register::top(r, d) && (register::recorded(r, d, k) || k < register::top(r, d) - d) {
        assert(register::absorbs(r, r, d, set![k]));
        register::lemma_absorb_unique(out, r, r, d, set![k]);
    }
    if out == r {
        assert(k <= register::top(r, d));
        assert(register::recorded(r, d, k) <==> (k >= register::top(r, d) - d && (
        register::recorded(r, d, k) || set![k].contains(k))));
    }
}

/// The update values above `k - 1` are `k` and those above `k`.
pub proof fn lemma_omega_step(k: int, p: u32)
    requires
        1 <= k,
        p <= 26,
    ensures
        likelihood::omega_of(k - 1, p) == likelihood::omega_of(k, p) + likelihood::value_weight(
            k,
            p,
        ),
{
    let f = likelihood::phi_of(k, p);
    let g = likelihood::phi_of(k - 1, p);
    let w = likelihood::value_weight(k, p);
    if f == g {
        let c = 4 * (f - 1) - k;
        assert((c + 1) * w == c * w + w) by (nonlinear_arith);
    } else {
        assert(g == f - 1);
        assert(k - 1 == 4 * (f - 3));
        lemma_pow2_unfold((64 - p - g) as nat);
        assert(likelihood::value_weight(k - 1, p) == 2 * w);
        assert(4 * (g - 1) - (k - 1) == 4);
        assert(4 * (f - 1) - k == 7);
        assert(4 * (2 * w) == 7 * w + w);
    }
}

/// No update value lies above the largest one.
proof fn lemma_omega_of_largest(p: u32)
    requires
        p <= 26,
    ensures
        likelihood::omega_of(hashing::max_update_value(p), p) == 0,
{
    let u = hashing::max_update_value(p);
    let w = likelihood::value_weight(u, p);
    assert(likelihood::phi_of(u, p) == 64 - p);
    assert(0 * w == 0);
}

proof fn lemma_changing(r: u32, p: u32, d: u32, hi: int)
    requires
        p <= 26,
        1 <= d <= 24,
        0 <= hi <= 252,
    ensures
        changing_weight(r, p, d, hi) == if hi < register::top(r, d) {
            likelihood::missing_weight(r, p, d, likelihood::window_start(r, d), hi + 1)
        } else {
            likelihood::missing_weight(
                r,
                p,
                d,
                likelihood::window_start(r, d),
                register::top(r, d),
            ) + likelihood::omega_of(register::top(r, d), p) - likelihood::omega_of(hi, p)
        },
    decreases hi,
{
    algebra::lemma_value_fits(d);
    if hi > 0 {
        lemma_changing(r, p, d, hi - 1);
        lemma_unchanged(r, d, hi);
        lemma_omega_step(hi, p);
    }
}

/// The weight of a register is the probability, scaled by `2^(64-p)`, that a hash
/// which selects the register changes it.
pub proof fn weight_is_change_probability(r: u32, p: u32, d: u32)
    requires
        p <= MAX_P,
        1 <= d <= 24,
        register::top(r, d) <= hashing::max_update_value(p),
    ensures
        likelihood::change_weight(r, p, d) == changing_weight(
            r,
            p,
            d,
            hashing::max_update_value(p),
        ),
{
    lemma_changing(r, p, d, hashing::max_update_value(p));
    lemma_omega_of_largest(p);
}

/// What does not change a register does not change it after an insert either.
proof fn lemma_changing_shrinks(r: u32, p: u32, d: u32, k: int, hi: int)
    requires
        p <= 26,
        1 <= d <= 24,
        1 <= k <= 252,
        0 <= hi <= 252,
        register::absorb(r, d, set![k]) != r,
    ensures
        0 <= changing_weight(register::absorb(r, d, set![k]), p, d, hi) <= changing_weight(
            r,
            p,
            d,
            hi,
        ),
        k <= hi ==> changing_weight(register::absorb(r, d, set![k]), p, d, hi) < changing_weight(
            r,
            p,
            d,
            hi,
        ),
    decreases hi,
{
    algebra::lemma_value_fits(d);
    let out = register::absorb(r, d, set![k]);
    register::lemma_absorb_exists(r, d, set![k]);
    if hi > 0 {
        lemma_changing_shrinks(r, p, d, k, hi - 1);
        lemma_unchanged(r, d, hi);
        lemma_unchanged(out, d, hi);
        likelihood::lemma_value_weight_bounds(hi, p);
        assert(register::recorded(out, d, hi) <==> (hi >= register::top(out, d) - d && (
        register::recorded(r, d, hi) || set![k].contains(hi))));
        if hi == k {
            assert(set![k].contains(k));
        }
    }
}

/// Every insert that changes a register lowers its weight.
pub proof fn insert_lowers_weight(r: u32, p: u32, d: u32, k: int)
    requires
        p <= MAX_P,
        1 <= d <= 24,
        register::top(r, d) <= hashing::max_update_value(p),
        1 <= k <= hashing::max_update_value(p),
        register::absorb(r, d, set![k]) != r,
    ensures
        0 <= likelihood::change_weight(register::absorb(r, d, set![k]), p, d)
            < likelihood::change_weight(r, p, d),
{
    algebra::lemma_value_fits(d);
    let out = register::absorb(r, d, set![k]);
    register::lemma_absorb_exists(r, d, set![k]);
    lemma_changing_shrinks(r, p, d, k, hashing::max_update_value(p));
    weight_is_change_probability(r, p, d);
    weight_is_change_probability(out, p, d);
}

/// Every insert that changes a dense sketch lowers the probability that the next
/// one does; one that changes nothing keeps it.
pub proof fn insert_lowers_change_probability(view: SketchView, hash: u64, variant: Variant)
    requires
        view.p <= MAX_P,
        1 <= variant.d <= 24,
        view.tokens is None,
        view.registers.len() == pow2(view.p as nat),
        in_range(view.registers, view.p, variant.d),
    ensures
        in_range(view.with_hash(hash, variant).registers, view.p, variant.d),
        view.with_hash(hash, variant).registers != view.registers <==>
            likelihood::total_change_weight(
            view.with_hash(hash, variant).registers,
            view.p,
            variant.d,
        ) < likelihood::total_change_weight(view.registers, view.p, variant.d),
{
    let p = view.p;
    let d = variant.d;
    let after = view.with_hash(hash, variant).registers;
    algebra::lemma_value_fits(d);
    algebra::lemma_absorb_one(view.registers, hash, p, d);
    hashing::lemma_update_bounds(hash, p);
    let i = hashing::register_index(hash, p);
    let k = hashing::update_value(hash, p);
    let r = view.registers[i];
    let out = register::absorb(r, d, set![k]);
    register::lemma_absorb_exists(r, d, set![k]);
    assert(register::top(r, d) <= hashing::max_update_value(p));
    assert(after == view.registers.update(i, out));
    likelihood::lemma_total_update(view.registers, i, out, p, d);
    if out != r {
        insert_lowers_weight(r, p, d, k);
        assert(after[i] != view.registers[i]);
    } else {
        assert(after =~= view.registers);
    }
}

/// The weights of registers in range add up to a probability.
pub proof fn total_weight_is_probability(registers: Seq<u32>, p: u32, d: u32)
    requires
        p <= MAX_P,
        1 <= d <= 24,
        in_range(registers, p, d),
    ensures
        0 <= likelihood::total_change_weight(registers, p, d) <= registers.len() * pow2(
            (64 - p) as nat,
        ),
    decreases registers.len(),
{
    let whole = pow2((64 - p) as nat) as int;
    let n = registers.len() as int;
    if n > 0 {
        let rest = registers.drop_last();
        assert forall|i: int| 0 <= i < rest.len() implies register::top(#[trigger] rest[i], d)
            <= hashing::max_update_value(p) by {
            assert(rest[i] == registers[i]);
        }
        total_weight_is_probability(rest, p, d);
        let r = registers[n - 1];
        assert(register::top(r, d) <= hashing::max_update_value(p));
        weight_is_change_probability(r, p, d);
        lemma_changing_bounds(r, p, d, hashing::max_update_value(p));
        likelihood::lemma_empty_weight(p, d);
        weight_is_change_probability(0, p, d);
        assert((n - 1) * whole + whole == n * whole) by (nonlinear_arith);
    } else {
        assert(0 * whole == 0);
    }
}

/// At most every update value changes a register, as it does an empty one.
proof fn lemma_changing_bounds(r: u32, p: u32, d: u32, hi: int)
    requires
        p <= 26,
        1 <= d <= 24,
        0 <= hi <= 252,
    ensures
        0 <= changing_weight(r, p, d, hi) <= changing_weight(0, p, d, hi),
    decreases hi,
{
    algebra::lemma_value_fits(d);
    if hi > 0 {
        lemma_changing_bounds(r, p, d, hi - 1);
        lemma_unchanged(0, d, hi);
        likelihood::lemma_empty_weight(p, d);
        likelihood::lemma_value_weight_bounds(hi, p);
    }
}

/// The registers of a sketch that stands for hashes are in range.
pub proof fn represented_registers_in_range(view: SketchView, hashes: Set<u64>, variant: Variant)
    requires
        laws::ordinary(variant),
        laws::represents(view, hashes, variant),
    ensures
        in_range(view.registers, view.p, variant.d),
        view.registers.len() == pow2(view.p as nat),
{
    let p = view.p;
    let d = variant.d;
    assert forall|i: int| 0 <= i < view.registers.len() implies register::top(
        #[trigger] view.registers[i],
        d,
    ) <= hashing::max_update_value(p) by {
        algebra::lemma_absorb_hashes(state::empty_registers(p), hashes, p, d, i);
        algebra::lemma_values_in_range(hashes, p, i);
        likelihood::lemma_empty_weight(p, d);
        let t = register::top(view.registers[i], d);
        assert(t == 0 || state::values_at(hashes, p, i).contains(t));
    }
}

} // verus!
