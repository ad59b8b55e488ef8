//! Why reducing the precision loses nothing: the reduced registers are those that
//! the same hashes give at the lower precision.

use vstd::arithmetic::div_mod::*;
use vstd::arithmetic::power2::*;
use vstd::prelude::*;
use vstd::std_specs::bits::*;

use crate::algebra;
use crate::hashing;
use crate::laws;
use crate::register;
use crate::state;
use crate::state::SketchView;
use crate::state::Variant;
use crate::MAX_P;
use crate::MIN_P;

verus! {

/// The update values from `a` on raised by `s`.
pub open spec fn raised(values: Set<int>, a: int, s: int) -> Set<int> {
    Set::new(|v: int| (v < a && values.contains(v)) || (v >= a + s && values.contains(v - s)))
}

/// The index bits of a hash that a reduction folds away.
pub open spec fn folded_bits(hash: u64, p: u32, new_p: u32) -> int {
    hashing::register_index(hash, p) / (pow2(new_p as nat) as int)
}

/// The register index at the lower precision is the low part of the index.
proof fn lemma_reduced_index(hash: u64, p: u32, new_p: u32)
    requires
        new_p <= p <= 26,
    ensures
        hashing::register_index(hash, new_p) == hashing::register_index(hash, p) % (pow2(
            new_p as nat,
        ) as int),
        hashing::register_index(hash, p) == hashing::register_index(hash, new_p) + pow2(
            new_p as nat,
        ) * folded_bits(hash, p, new_p),
        0 <= folded_bits(hash, p, new_p) < pow2((p - new_p) as nat),
{
    let x = hash as int / 4;
    let m = pow2(new_p as nat) as int;
    let k = pow2((p - new_p) as nat) as int;
    let i = hashing::register_index(hash, p);
    lemma_pow2_pos(new_p as nat);
    lemma_pow2_pos((p - new_p) as nat);
    lemma_pow2_adds(new_p as nat, (p - new_p) as nat);
    hashing::lemma_update_bounds(hash, p);
    lemma_mod_mod(x, m, k);
    lemma_fundamental_div_mod(i, m);
    lemma_div_pos_is_pos(i, m);
    assert(i / m < k) by (nonlinear_arith)
        requires
            0 <= i < m * k,
            m > 0,
    ;
}

/// Leading zeros of a number without its low `e` bits.
proof fn lemma_leading_zeros_div(x: u64, e: nat)
    requires
        e < 64,
        x as int / pow2(e) as int > 0,
    ensures
        x as int / pow2(e) as int <= u64::MAX,
        u64_leading_zeros((x as int / pow2(e) as int) as u64) == u64_leading_zeros(x) + e,
{
    hashing::lemma_leading_zeros_interval(x);
    lemma_pow2_pos(e);
    let m = pow2(e) as int;
    let n = u64_leading_zeros(x);
    let q = x as int / m;
    lemma_fundamental_div_mod(x as int, m);
    lemma_mod_bound(x as int, m);
    assert(q <= x) by (nonlinear_arith)
        requires
            x == m * q + x as int % m,
            0 <= x as int % m,
            m >= 1,
            q > 0,
    ;
    assert(x >= m) by (nonlinear_arith)
        requires
            x == m * q + x as int % m,
            0 <= x as int % m,
            m >= 1,
            q >= 1,
    ;
    if 64 - n <= e {
        hashing::lemma_pow2_monotonic((64 - n) as nat, e);
    }
    let lo = pow2((63 - n - e) as nat) as int;
    let hi = pow2((64 - n - e) as nat) as int;
    lemma_pow2_adds(e, (63 - n - e) as nat);
    lemma_pow2_adds(e, (64 - n - e) as nat);
    assert(lo <= q) by (nonlinear_arith)
        requires
            m * lo <= x,
            x == m * q + x as int % m,
            x as int % m < m,
            m >= 1,
    ;
    assert(q < hi) by (nonlinear_arith)
        requires
            x < m * hi,
            x == m * q + x as int % m,
            0 <= x as int % m,
            m >= 1,
    ;
    hashing::lemma_leading_zeros_from_interval(q as u64, n + e);
}

/// How the update value of a hash changes with the precision.
proof fn lemma_reduced_value(hash: u64, p: u32, new_p: u32)
    requires
        new_p <= p <= 26,
    ensures
        ({
            let v = hashing::update_value(hash, p);
            let a = state::first_cut_value(p);
            let j = folded_bits(hash, p, new_p);
            &&& v < a ==> hashing::update_value(hash, new_p) == v
            &&& v >= a ==> hashing::update_value(hash, new_p) == v + state::cut_value_growth(
                p,
                new_p,
                j as nat,
            )
        }),
{
    let n = u64_leading_zeros(hash);
    hashing::lemma_leading_zeros_interval(hash);
    lemma_reduced_index(hash, p, new_p);
    if n >= 62 - p {
        let x = hash as int / 4;
        let m = pow2(new_p as nat) as int;
        let full = pow2(p as nat) as int;
        let j = folded_bits(hash, p, new_p);
        lemma_pow2_pos(new_p as nat);
        lemma_pow2_pos(p as nat);
        hashing::lemma_pow2_monotonic((64 - n) as nat, (p + 2) as nat);
        lemma_pow2_adds(p as nat, 2);
        lemma_pow2_adds(2, new_p as nat);
        lemma2_to64();
        assert(x < full);
        lemma_small_mod(x as nat, full as nat);
        assert(hashing::register_index(hash, p) == x);
        lemma_div_denominator(hash as int, 4, m);
        assert(j == hash as int / pow2((new_p + 2) as nat) as int);
        if j > 0 {
            lemma_leading_zeros_div(hash, (new_p + 2) as nat);
        } else {
            hashing::lemma_leading_zeros_interval(0);
            lemma_pow2_pos((new_p + 2) as nat);
            let e = pow2((new_p + 2) as nat) as int;
            lemma_fundamental_div_mod(hash as int, e);
            lemma_mod_bound(hash as int, e);
            assert(hash < e) by (nonlinear_arith)
                requires
                    hash as int == e * (hash as int / e) + hash as int % e,
                    hash as int % e < e,
                    hash as int / e == 0,
            ;
            if n < 62 - new_p {
                hashing::lemma_pow2_monotonic((new_p + 2) as nat, (63 - n) as nat);
            }
        }
    }
}

/// A register made by inserts can be rebased, and doing so raises its values.
proof fn lemma_rebase_from_empty(d: u32, values: Set<int>, a: int, s: int)
    requires
        3 <= d <= 24,
        1 <= a,
        0 <= s,
        a + 3 + s <= 255,
        forall|v: int| #[trigger] values.contains(v) ==> 1 <= v <= a + 3,
    ensures
        register::rebasable(register::absorb(0, d, values), d, a, s),
        register::rebase(register::absorb(0, d, values), d, a, s) == register::absorb(
            0,
            d,
            raised(values, a, s),
        ),
        forall|v: int| #[trigger] raised(values, a, s).contains(v) ==> 1 <= v <= a + 3 + s,
{
    algebra::lemma_value_fits(d);
    let r = register::absorb(0, d, values);
    let up = raised(values, a, s);
    register::lemma_absorb_exists(0, d, values);
    laws::lemma_from_empty(r, d, values);
    assert forall|v: int| #[trigger] up.contains(v) implies 1 <= v <= a + 3 + s by {
        if v >= a + s && values.contains(v - s) {
        }
    }
    register::lemma_absorb_exists(0, d, up);
    let out = register::absorb(0, d, up);
    laws::lemma_from_empty(out, d, up);
    let u = register::top(r, d);
    if u < a || s == 0 {
        assert forall|v: int| up.contains(v) == values.contains(v) by {
            if values.contains(v) {
                assert(v <= u);
            }
            if v >= a + s && values.contains(v - s) {
                assert(v - s <= u);
            }
        }
        assert(up =~= values);
    } else {
        assert(values.contains(u));
        assert(up.contains(u + s));
        assert(register::top(out, d) == u + s) by {
            assert(up.contains(register::top(out, d)));
            let t = register::top(out, d);
            if t >= a + s && values.contains(t - s) {
                assert(t - s <= u);
            }
        }
        assert forall|v: int| #[trigger]
            register::recorded(out, d, v) <==> (v >= register::top(out, d) - d && ((v < a
                && register::recorded(r, d, v)) || (v >= a + s && register::recorded(
                r,
                d,
                v - s,
            )))) by {
            assert(register::recorded(r, d, v) <==> (v >= u - d && (v == 0 || values.contains(v))));
            assert(register::recorded(r, d, v - s) <==> (v - s >= u - d && (v - s == 0
                || values.contains(v - s))));
        }
        assert(register::rebases(out, r, d, a, s));
    }
    register::lemma_rebase_unique(out, out, r, d, a, s);
}

/// The update values, at the lower precision, of the hashes that select register
/// `i` there and one of the first `n` registers that fold into it.
spec fn folded_values(hashes: Set<u64>, p: u32, new_p: u32, i: int, n: nat) -> Set<int> {
    Set::new(
        |v: int|
            exists|hash: u64| #[trigger]
                hashes.contains(hash) && hashing::register_index(hash, new_p) == i && folded_bits(
                    hash,
                    p,
                    new_p,
                ) < n && hashing::update_value(hash, new_p) == v,
    )
}

/// The values of one folded register, raised, are those of its hashes at the
/// lower precision.
proof fn lemma_raised_values(hashes: Set<u64>, p: u32, new_p: u32, i: int, j: nat)
    requires
        new_p <= p <= 26,
        0 <= i < pow2(new_p as nat),
        j < pow2((p - new_p) as nat),
    ensures
        folded_values(hashes, p, new_p, i, j + 1) == folded_values(hashes, p, new_p, i, j).union(
            raised(
                state::values_at(hashes, p, i + pow2(new_p as nat) * j),
                state::first_cut_value(p),
                state::cut_value_growth(p, new_p, j),
            ),
        ),
{
    let m = pow2(new_p as nat) as int;
    let a = state::first_cut_value(p);
    let s = state::cut_value_growth(p, new_p, j);
    let values = state::values_at(hashes, p, i + m * j);
    let up = raised(values, a, s);
    let more = folded_values(hashes, p, new_p, i, j + 1);
    let fewer = folded_values(hashes, p, new_p, i, j);
    state::lemma_growth_bounds(p, new_p, j);
    assert forall|v: int| more.contains(v) == fewer.union(up).contains(v) by {
        if more.contains(v) {
            let hash = choose|hash: u64| #[trigger]
                hashes.contains(hash) && hashing::register_index(hash, new_p) == i && folded_bits(
                    hash,
                    p,
                    new_p,
                ) < j + 1 && hashing::update_value(hash, new_p) == v;
            lemma_reduced_index(hash, p, new_p);
            lemma_reduced_value(hash, p, new_p);
            if folded_bits(hash, p, new_p) == j {
                assert(values.contains(hashing::update_value(hash, p)));
            } else {
                assert(fewer.contains(v));
            }
        }
        if fewer.contains(v) {
            let hash = choose|hash: u64| #[trigger]
                hashes.contains(hash) && hashing::register_index(hash, new_p) == i && folded_bits(
                    hash,
                    p,
                    new_p,
                ) < j && hashing::update_value(hash, new_p) == v;
            assert(hashes.contains(hash));
        }
        if up.contains(v) {
            let w = if v < a && values.contains(v) {
                v
            } else {
                v - s
            };
            let hash = choose|hash: u64| #[trigger]
                hashes.contains(hash) && hashing::register_index(hash, p) == i + m * j
                    && hashing::update_value(hash, p) == w;
            lemma_reduced_index(hash, p, new_p);
            lemma_reduced_value(hash, p, new_p);
            assert(i + m * j == j * m + i) by (nonlinear_arith);
            lemma_fundamental_div_mod_converse(i + m * j, m, j as int, i);
            assert(folded_bits(hash, p, new_p) == j);
            assert(hashing::register_index(hash, new_p) == i);
        }
    }
    assert(more =~= fewer.union(up));
}

/// Each register that folds into register `i` can be rebased.
proof fn lemma_folded_register(hashes: Set<u64>, p: u32, new_p: u32, d: u32, i: int, j: nat)
    requires
        MIN_P <= new_p <= p <= MAX_P,
        3 <= d <= 24,
        0 <= i < pow2(new_p as nat),
        j < pow2((p - new_p) as nat),
    ensures
        ({
            let x = i + pow2(new_p as nat) * j;
            let r = state::registers_of(hashes, p, d)[x];
            let a = state::first_cut_value(p);
            let s = state::cut_value_growth(p, new_p, j);
            let up = raised(state::values_at(hashes, p, x), a, s);
            &&& 0 <= x < pow2(p as nat)
            &&& register::rebasable(r, d, a, s)
            &&& register::rebase(r, d, a, s) == register::absorb(0, d, up)
            &&& forall|v: int| #[trigger] up.contains(v) ==> 1 <= v <= 252
        }),
{
    let x = i + pow2(new_p as nat) * j;
    state::lemma_growth_bounds(p, new_p, j);
    state::lemma_fold_in_bounds(p, new_p, i, j);
    algebra::lemma_values_in_range(hashes, p, x);
    lemma_rebase_from_empty(
        d,
        state::values_at(hashes, p, x),
        state::first_cut_value(p),
        state::cut_value_growth(p, new_p, j),
    );
}

/// What is gathered from the first `n` folded registers.
proof fn lemma_gathered(hashes: Set<u64>, p: u32, new_p: u32, d: u32, i: int, n: nat)
    requires
        MIN_P <= new_p <= p <= MAX_P,
        3 <= d <= 24,
        0 <= i < pow2(new_p as nat),
        n <= pow2((p - new_p) as nat),
    ensures
        state::gathered(state::registers_of(hashes, p, d), p, new_p, d, i, n) == register::absorb(
            0,
            d,
            folded_values(hashes, p, new_p, i, n),
        ),
        forall|v: int| #[trigger]
            folded_values(hashes, p, new_p, i, n).contains(v) ==> 1 <= v <= 252,
    decreases n,
{
    algebra::lemma_value_fits(d);
    assert forall|v: int| #[trigger]
        folded_values(hashes, p, new_p, i, n).contains(v) implies 1 <= v <= 252 by {
        let hash = choose|hash: u64| #[trigger]
            hashes.contains(hash) && hashing::register_index(hash, new_p) == i && folded_bits(
                hash,
                p,
                new_p,
            ) < n && hashing::update_value(hash, new_p) == v;
        hashing::lemma_update_bounds(hash, new_p);
    }
    if n == 0 {
        assert forall|v: int| !folded_values(hashes, p, new_p, i, 0).contains(v) by {
            if folded_values(hashes, p, new_p, i, 0).contains(v) {
                let hash = choose|hash: u64| #[trigger]
                    hashes.contains(hash) && hashing::register_index(hash, new_p) == i
                        && folded_bits(hash, p, new_p) < 0 && hashing::update_value(hash, new_p)
                        == v;
                lemma_reduced_index(hash, p, new_p);
            }
        }
        let none = folded_values(hashes, p, new_p, i, 0);
        assert(none =~= Set::empty());
        register::lemma_absorb_unique(0, 0, 0, d, none);
    } else {
        let j = (n - 1) as nat;
        lemma_gathered(hashes, p, new_p, d, i, j);
        lemma_folded_register(hashes, p, new_p, d, i, j);
        lemma_raised_values(hashes, p, new_p, i, j);
        laws::merged_registers_join_values(
            d,
            folded_values(hashes, p, new_p, i, j),
            raised(
                state::values_at(hashes, p, i + pow2(new_p as nat) * j),
                state::first_cut_value(p),
                state::cut_value_growth(p, new_p, j),
            ),
        );
    }
}

/// Cutting a word to its storage changes nothing if its largest value fits.
proof fn lemma_trim_noop(r: u32, d: u32)
    requires
        1 <= d <= 24,
        register::top(r, d) < 256,
    ensures
        state::trimmed(r, d) == r,
{
    vstd::bits::lemma_u32_shr_is_div(r, d);
    lemma_pow2_pos(d as nat);
    lemma_pow2_adds(d as nat, 8);
    lemma2_to64();
    let m = pow2(d as nat) as int;
    lemma_fundamental_div_mod(r as int, m);
    lemma_mod_bound(r as int, m);
    assert(r < m * 256) by (nonlinear_arith)
        requires
            r as int == m * (r as int / m) + r as int % m,
            r as int % m < m,
            r as int / m <= 255,
            m >= 1,
    ;
    lemma_small_mod(r as nat, pow2((d + 8) as nat));
}

/// Reducing the registers that hashes gave yields the registers that the hashes
/// give at the lower precision.
pub proof fn reduced_registers_are_direct(hashes: Set<u64>, p: u32, new_p: u32, d: u32)
    requires
        MIN_P <= new_p <= p <= MAX_P,
        3 <= d <= 24,
    ensures
        state::reducible(state::registers_of(hashes, p, d), p, new_p, d),
        state::reduce_registers(state::registers_of(hashes, p, d), p, new_p, d)
            == state::registers_of(hashes, new_p, d),
{
    let registers = state::registers_of(hashes, p, d);
    let out = state::reduce_registers(registers, p, new_p, d);
    let want = state::registers_of(hashes, new_p, d);
    let n = pow2((p - new_p) as nat);
    assert forall|i: int, j: nat|
        0 <= i < pow2(new_p as nat) && j < n implies register::rebasable(
        #[trigger] registers[i + pow2(new_p as nat) * j],
        d,
        state::first_cut_value(p),
        state::cut_value_growth(p, new_p, j),
    ) by {
        lemma_folded_register(hashes, p, new_p, d, i, j);
    }
    assert forall|i: int| 0 <= i < out.len() implies out[i] == want[i] by {
        lemma_gathered(hashes, p, new_p, d, i, n);
        let values = folded_values(hashes, p, new_p, i, n);
        let direct = state::values_at(hashes, new_p, i);
        assert forall|v: int| values.contains(v) == direct.contains(v) by {
            if direct.contains(v) {
                let hash = choose|hash: u64| #[trigger]
                    hashes.contains(hash) && hashing::register_index(hash, new_p) == i
                        && hashing::update_value(hash, new_p) == v;
                lemma_reduced_index(hash, p, new_p);
                assert(hashes.contains(hash));
            }
            if values.contains(v) {
                let hash = choose|hash: u64| #[trigger]
                    hashes.contains(hash) && hashing::register_index(hash, new_p) == i
                        && folded_bits(hash, p, new_p) < n && hashing::update_value(hash, new_p)
                        == v;
                assert(hashes.contains(hash));
            }
        }
        assert(values =~= direct);
        algebra::lemma_value_fits(d);
        register::lemma_absorb_exists(0, d, values);
        laws::lemma_from_empty(register::absorb(0, d, values), d, values);
        lemma_trim_noop(register::absorb(0, d, values), d);
    }
    assert(out =~= want);
}

/// A reduced sketch stands for the same hashes: its registers are those of a
/// sketch built directly at the lower precision.
pub proof fn reduce_keeps_hashes(
    view: SketchView,
    hashes: Set<u64>,
    new_p: u32,
    variant: Variant,
)
    requires
        laws::ordinary(variant),
        laws::represents(view, hashes, variant),
        MIN_P <= new_p <= view.p,
    ensures
        view.can_reduce(new_p, variant),
        laws::represents(view.reduce(new_p, variant), hashes, variant),
        view.reduce(new_p, variant).p == new_p,
{
    let d = variant.d;
    reduced_registers_are_direct(hashes, view.p, new_p, d);
    if let Some(tokens) = view.tokens {
        let all = state::token_hashes(tokens);
        algebra::lemma_retokenized_finite(tokens);
        lemma_retokenized_hashes(tokens);
        reduced_registers_are_direct(all, view.p, new_p, d);
    }
}

/// Reducing in two steps gives the registers that reducing at once gives.
pub proof fn reduce_composes(
    view: SketchView,
    hashes: Set<u64>,
    mid_p: u32,
    new_p: u32,
    variant: Variant,
)
    requires
        laws::ordinary(variant),
        laws::represents(view, hashes, variant),
        MIN_P <= new_p <= mid_p <= view.p,
    ensures
        view.reduce(mid_p, variant).can_reduce(new_p, variant),
        view.reduce(mid_p, variant).reduce(new_p, variant).registers == view.reduce(
            new_p,
            variant,
        ).registers,
{
    reduce_keeps_hashes(view, hashes, mid_p, variant);
    reduce_keeps_hashes(view.reduce(mid_p, variant), hashes, new_p, variant);
    reduce_keeps_hashes(view, hashes, new_p, variant);
}

/// It makes no difference to the registers whether sketches are merged before or
/// after they are reduced.
pub proof fn reduce_commutes_with_merge(
    a: SketchView,
    b: SketchView,
    ha: Set<u64>,
    hb: Set<u64>,
    new_p: u32,
    variant: Variant,
)
    requires
        laws::ordinary(variant),
        laws::represents(a, ha, variant),
        laws::represents(b, hb, variant),
        a.p == b.p,
        MIN_P <= new_p <= a.p,
    ensures
        a.merge(b, variant).can_reduce(new_p, variant),
        a.merge(b, variant).reduce(new_p, variant).registers == a.reduce(new_p, variant).merge(
            b.reduce(new_p, variant),
            variant,
        ).registers,
{
    laws::merge_joins_hashes(a, b, ha, hb, variant);
    reduce_keeps_hashes(a.merge(b, variant), ha.union(hb), new_p, variant);
    reduce_keeps_hashes(a, ha, new_p, variant);
    reduce_keeps_hashes(b, hb, new_p, variant);
    laws::merge_joins_hashes(
        a.reduce(new_p, variant),
        b.reduce(new_p, variant),
        ha,
        hb,
        variant,
    );
}

/// Retokenizing does not change the hashes that tokens stand for.
proof fn lemma_retokenized_hashes(tokens: Set<u32>)
    ensures
        state::token_hashes(state::hash_tokens(state::token_hashes(tokens)))
            == state::token_hashes(tokens),
{
    let all = state::token_hashes(tokens);
    let toks = state::hash_tokens(all);
    let back = state::token_hashes(toks);
    assert forall|hash: u64| back.contains(hash) == all.contains(hash) by {
        if back.contains(hash) {
            let t = choose|t: u32| #[trigger] toks.contains(t) && hash == hashing::hash_of(t);
            let h = choose|h: u64| #[trigger] all.contains(h) && t == hashing::token_of(h);
            let t0 = choose|t0: u32| #[trigger] tokens.contains(t0) && h == hashing::hash_of(t0);
            hashing::lemma_retokenize(t0);
        }
        if all.contains(hash) {
            let t0 = choose|t0: u32| #[trigger]
                tokens.contains(t0) && hash == hashing::hash_of(t0);
            hashing::lemma_retokenize(t0);
            assert(toks.contains(hashing::token_of(hash)));
        }
    }
    assert(back =~= all);
}

} // verus!
