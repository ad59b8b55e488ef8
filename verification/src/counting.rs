//! Probabilities as counts: how many of the `2^64` hashes do what.

use vstd::arithmetic::div_mod::*;
use vstd::arithmetic::power2::*;
use vstd::prelude::*;
use vstd::set_lib::*;
use vstd::std_specs::bits::*;

use crate::algebra;
use crate::hashing;
use crate::likelihood;
use crate::probability;
use crate::register;
use crate::state::SketchView;
use crate::state::Variant;
use crate::MAX_P;

verus! {

/// The numbers that leave the remainder `low` and a quotient in `a..b`.
spec fn block(low: int, step: int, a: int, b: int) -> Set<u64> {
    Set::new(|h: u64| h as int % step == low && a <= h as int / step < b)
}

proof fn lemma_block_len(low: int, step: int, a: int, b: int)
    requires
        0 <= low < step,
        0 <= a <= b,
        b * step <= 0x1_0000_0000_0000_0000,
    ensures
        block(low, step, a, b).finite(),
        block(low, step, a, b).len() == b - a,
    decreases b - a,
{
    if a == b {
        assert(block(low, step, a, b) =~= Set::empty());
    } else {
        assert((b - 1) * step + step == b * step) by (nonlinear_arith);
        assert(0 <= (b - 1) * step) by (nonlinear_arith)
            requires
                0 <= b - 1,
                0 < step,
        ;
        lemma_block_len(low, step, a, b - 1);
        let x = ((b - 1) * step + low) as u64;
        let rest = block(low, step, a, b - 1);
        lemma_fundamental_div_mod_converse(x as int, step, b - 1, low);
        assert forall|h: u64| #[trigger]
            block(low, step, a, b).contains(h) == rest.insert(x).contains(h) by {
            lemma_fundamental_div_mod(h as int, step);
            if h as int / step == b - 1 && h as int % step == low {
                assert(step * (b - 1) == (b - 1) * step) by (nonlinear_arith);
                assert(h == x);
            }
        }
        assert(block(low, step, a, b) =~= rest.insert(x));
    }
}

/// The hashes with given low `e` bits and `z` leading zeros, where zeros among the
/// low `e` bits do not count.
spec fn with_zeros(e: nat, low: int, z: int) -> Set<u64> {
    Set::new(
        |h: u64|
            h as int % (pow2(e) as int) == low && z == if u64_leading_zeros(h) < 64 - e {
                u64_leading_zeros(h) as int
            } else {
                64 - e
            },
    )
}

proof fn lemma_with_zeros_len(e: nat, low: int, z: int)
    requires
        e < 64,
        0 <= low < pow2(e),
        0 <= z <= 64 - e,
    ensures
        with_zeros(e, low, z).finite(),
        with_zeros(e, low, z).len() == if z < 64 - e {
            pow2((63 - e - z) as nat)
        } else {
            1
        },
{
    let step = pow2(e) as int;
    lemma_pow2_pos(e);
    lemma2_to64_rest();
    let hashes = with_zeros(e, low, z);
    if z < 64 - e {
        let a = pow2((63 - e - z) as nat) as int;
        let b = pow2((64 - e - z) as nat) as int;
        lemma_pow2_pos((63 - e - z) as nat);
        lemma_pow2_unfold((64 - e - z) as nat);
        lemma_pow2_adds((63 - e - z) as nat, e);
        lemma_pow2_adds((64 - e - z) as nat, e);
        hashing::lemma_pow2_monotonic((64 - z) as nat, 64);
        assert(pow2((63 - z) as nat) == a * step);
        assert(pow2((64 - z) as nat) == b * step);
        lemma_block_len(low, step, a, b);
        assert forall|h: u64| #[trigger] hashes.contains(h) == block(
            low,
            step,
            a,
            b,
        ).contains(h) by {
            hashing::lemma_leading_zeros_interval(h);
            lemma_pow2_pos((63 - z) as nat);
            lemma_quotient_bounds(h as int, step, a, b);
            if a * step <= h < b * step {
                hashing::lemma_leading_zeros_from_interval(h, z);
            }
        }
        assert(hashes =~= block(low, step, a, b));
    } else {
        assert(1 * step == step);
        hashing::lemma_pow2_monotonic(e, 64);
        lemma_block_len(low, step, 0, 1);
        assert forall|h: u64| #[trigger] hashes.contains(h) == block(
            low,
            step,
            0,
            1,
        ).contains(h) by {
            hashing::lemma_leading_zeros_interval(h);
            lemma_quotient_bounds(h as int, step, 0, 1);
            let n = u64_leading_zeros(h);
            if n >= 64 - e {
                hashing::lemma_pow2_monotonic((64 - n) as nat, e);
            } else {
                hashing::lemma_pow2_monotonic(e, (63 - n) as nat);
            }
        }
        assert(hashes =~= block(low, step, 0, 1));
    }
}

/// A quotient lies between two numbers if the dividend lies between their multiples.
proof fn lemma_quotient_bounds(h: int, step: int, a: int, b: int)
    requires
        0 < step,
        0 <= h,
    ensures
        a <= h / step < b <==> a * step <= h < b * step,
{
    lemma_fundamental_div_mod(h, step);
    let q = h / step;
    let r = h % step;
    assert(a <= q < b <==> a * step <= q * step + r < b * step) by (nonlinear_arith)
        requires
            0 <= r < step,
    ;
    assert(step * q == q * step) by (nonlinear_arith);
}

/// The hashes that go to register `i` with update value `k`.
pub open spec fn hashes_with_value(p: u32, i: int, k: int) -> Set<u64> {
    Set::new(
        |hash: u64|
            hashing::register_index(hash, p) == i && hashing::update_value(hash, p) == k,
    )
}

/// Of all hashes, `2^(64 - p - phi(k))` go to a given register with update value `k`:
/// the value comes with probability `2^-phi(k)`, once the register is selected.
pub proof fn hashes_per_value(p: u32, i: int, k: int)
    requires
        p <= MAX_P,
        0 <= i < pow2(p as nat),
        1 <= k <= hashing::max_update_value(p),
    ensures
        hashes_with_value(p, i, k).finite(),
        hashes_with_value(p, i, k).len() == pow2((64 - p - likelihood::phi_of(k, p)) as nat),
{
    let m = pow2(p as nat) as int;
    let e = (p + 2) as nat;
    let z = (k - 1) / 4;
    let t = (k - 1) % 4;
    let low = 4 * i + t;
    lemma_pow2_adds(2, p as nat);
    lemma2_to64();
    assert(pow2(e) == 4 * m);
    lemma_with_zeros_len(e, low, z);
    assert forall|h: u64| #[trigger] hashes_with_value(p, i, k).contains(h) == with_zeros(
        e,
        low,
        z,
    ).contains(h) by {
        lemma_pow2_pos(p as nat);
        lemma_mod_breakdown(h as int, 4, m);
        lemma_mod_bound(h as int / 4, m);
        hashing::lemma_leading_zeros_interval(h);
    }
    assert(hashes_with_value(p, i, k) =~= with_zeros(e, low, z));
    lemma2_to64();
}

/// The hashes that have a given token.
pub open spec fn hashes_with_token(token: u32) -> Set<u64> {
    Set::new(|hash: u64| hashing::token_of(hash) == token)
}

/// Whether some hash has this token.
pub open spec fn is_token(token: u32) -> bool {
    exists|hash: u64| #[trigger] hashing::token_of(hash) == token
}

/// Of all hashes, `2^(64 - level)` have a given token.
pub proof fn hashes_per_token(token: u32)
    requires
        is_token(token),
    ensures
        hashes_with_token(token).finite(),
        hashes_with_token(token).len() == pow2((64 - likelihood::token_level(token)) as nat),
{
    let low = token as int / 64;
    let z = token as int % 64;
    let some = choose|hash: u64| #[trigger] hashing::token_of(hash) == token;
    lemma_token_parts(some);
    lemma2_to64();
    lemma_with_zeros_len(26, low, z);
    assert forall|h: u64| #[trigger] hashes_with_token(token).contains(h) == with_zeros(
        26,
        low,
        z,
    ).contains(h) by {
        lemma_token_parts(h);
    }
    assert(hashes_with_token(token) =~= with_zeros(26, low, z));
}

/// The two parts of a token can be told apart.
proof fn lemma_token_parts(hash: u64)
    ensures
        hashing::token_of(hash) as int / 64 == hash as int % 0x400_0000,
        hashing::token_of(hash) as int % 64 == if u64_leading_zeros(hash) < 38 {
            u64_leading_zeros(hash) as int
        } else {
            38
        },
{
    hashing::lemma_leading_zeros_interval(hash);
}

/// The hashes that go to register `i`, with an update value of at most `hi`, and
/// change the word `r` there.
spec fn changing_one(r: u32, p: u32, d: u32, i: int, hi: int) -> Set<u64> {
    Set::new(
        |hash: u64|
            hashing::register_index(hash, p) == i && hashing::update_value(hash, p) <= hi
                && register::absorb(r, d, set![hashing::update_value(hash, p)]) != r,
    )
}

proof fn lemma_changing_one_len(r: u32, p: u32, d: u32, i: int, hi: int)
    requires
        p <= MAX_P,
        0 <= i < pow2(p as nat),
        0 <= hi <= hashing::max_update_value(p),
    ensures
        changing_one(r, p, d, i, hi).finite(),
        changing_one(r, p, d, i, hi).len() == probability::changing_weight(r, p, d, hi),
    decreases hi,
{
    let all = changing_one(r, p, d, i, hi);
    if hi == 0 {
        assert forall|h: u64| !all.contains(h) by {
            hashing::lemma_update_bounds(h, p);
        }
        assert(all =~= Set::empty());
    } else {
        let rest = changing_one(r, p, d, i, hi - 1);
        lemma_changing_one_len(r, p, d, i, hi - 1);
        if register::absorb(r, d, set![hi]) == r {
            assert(all =~= rest);
        } else {
            let more = hashes_with_value(p, i, hi);
            hashes_per_value(p, i, hi);
            assert(all =~= rest.union(more));
            assert(rest.disjoint(more));
            lemma_set_disjoint_lens(rest, more);
        }
    }
}

/// The hashes that select one of the first `n` registers and change it.
spec fn changing_some(registers: Seq<u32>, p: u32, d: u32, n: int) -> Set<u64> {
    Set::new(
        |hash: u64|
            hashing::register_index(hash, p) < n && register::absorb(
                registers[hashing::register_index(hash, p)],
                d,
                set![hashing::update_value(hash, p)],
            ) != registers[hashing::register_index(hash, p)],
    )
}

proof fn lemma_changing_some_len(registers: Seq<u32>, p: u32, d: u32, n: int)
    requires
        p <= MAX_P,
        1 <= d <= 24,
        registers.len() == pow2(p as nat),
        0 <= n <= registers.len(),
        probability::in_range(registers, p, d),
    ensures
        changing_some(registers, p, d, n).finite(),
        changing_some(registers, p, d, n).len() == likelihood::total_change_weight(
            registers.take(n),
            p,
            d,
        ),
    decreases n,
{
    let all = changing_some(registers, p, d, n);
    if n == 0 {
        assert forall|h: u64| !all.contains(h) by {
            hashing::lemma_update_bounds(h, p);
        }
        assert(all =~= Set::empty());
    } else {
        let r = registers[n - 1];
        let hi = hashing::max_update_value(p);
        let rest = changing_some(registers, p, d, n - 1);
        let more = changing_one(r, p, d, n - 1, hi);
        lemma_changing_some_len(registers, p, d, n - 1);
        lemma_changing_one_len(r, p, d, n - 1, hi);
        assert(register::top(r, d) <= hi);
        probability::weight_is_change_probability(r, p, d);
        assert forall|h: u64| #[trigger] all.contains(h) == rest.union(more).contains(h) by {
            hashing::lemma_update_bounds(h, p);
        }
        assert(all =~= rest.union(more));
        assert(rest.disjoint(more));
        lemma_set_disjoint_lens(rest, more);
        assert(registers.take(n).drop_last() =~= registers.take(n - 1));
    }
}

/// The hashes whose insert changes the registers of a sketch.
pub open spec fn changing_hashes(view: SketchView, variant: Variant) -> Set<u64> {
    Set::new(|hash: u64| view.with_hash(hash, variant).registers != view.registers)
}

/// The weight that the martingale estimator follows is the number of hashes that would
/// change the registers.
pub proof fn weight_counts_changing_hashes(view: SketchView, variant: Variant)
    requires
        view.p <= MAX_P,
        1 <= variant.d <= 24,
        view.tokens is None,
        view.registers.len() == pow2(view.p as nat),
        probability::in_range(view.registers, view.p, variant.d),
    ensures
        changing_hashes(view, variant).finite(),
        changing_hashes(view, variant).len() == likelihood::total_change_weight(
            view.registers,
            view.p,
            variant.d,
        ),
{
    let p = view.p;
    let d = variant.d;
    let registers = view.registers;
    let n = registers.len() as int;
    lemma_changing_some_len(registers, p, d, n);
    assert(registers.take(n) =~= registers);
    assert forall|h: u64| #[trigger] changing_hashes(view, variant).contains(h) == changing_some(
        registers,
        p,
        d,
        n,
    ).contains(h) by {
        algebra::lemma_absorb_one(registers, h, p, d);
        let i = hashing::register_index(h, p);
        let out = register::absorb(registers[i], d, set![hashing::update_value(h, p)]);
        let after = view.with_hash(h, variant).registers;
        assert(after == registers.update(i, out));
        if out == registers[i] {
            assert(after =~= registers);
        } else {
            assert(after[i] != registers[i]);
        }
    }
    assert(changing_hashes(view, variant) =~= changing_some(registers, p, d, n));
}

/// The hashes that have one of the tokens of a list.
pub open spec fn hashes_with_tokens(tokens: Seq<u32>) -> Set<u64> {
    Set::new(|hash: u64| tokens.contains(hashing::token_of(hash)))
}

/// The weight of a list of distinct tokens is the number of hashes that have one of
/// them.
pub proof fn token_weight_counts_hashes(tokens: Seq<u32>)
    requires
        tokens.no_duplicates(),
        forall|i: int| 0 <= i < tokens.len() ==> is_token(#[trigger] tokens[i]),
    ensures
        hashes_with_tokens(tokens).finite(),
        hashes_with_tokens(tokens).len() == likelihood::tokens_weight(tokens),
    decreases tokens.len(),
{
    let all = hashes_with_tokens(tokens);
    if tokens.len() == 0 {
        assert(all =~= Set::empty());
    } else {
        let before = tokens.drop_last();
        let rest = hashes_with_tokens(before);
        let last = tokens.last();
        let more = hashes_with_token(last);
        token_weight_counts_hashes(before);
        assert(is_token(tokens[tokens.len() - 1]));
        hashes_per_token(last);
        assert forall|h: u64| #[trigger] all.contains(h) == rest.union(more).contains(h) by {
            let t = hashing::token_of(h);
            if tokens.contains(t) && t != last {
                let i = choose|i: int| 0 <= i < tokens.len() && tokens[i] == t;
                assert(before[i] == t);
            }
            if before.contains(t) {
                let i = choose|i: int| 0 <= i < before.len() && before[i] == t;
                assert(tokens[i] == t);
            }
        }
        assert(all =~= rest.union(more));
        assert forall|h: u64| rest.contains(h) implies !more.contains(h) by {
            let t = hashing::token_of(h);
            let i = choose|i: int| 0 <= i < before.len() && before[i] == t;
            assert(tokens[i] == t);
        }
        assert(rest.disjoint(more));
        lemma_set_disjoint_lens(rest, more);
    }
}

} // verus!
