//! What the coefficients of the likelihood count: every update value that a register
//! records, and every token, exactly once.

use vstd::arithmetic::power2::*;
use vstd::prelude::*;
use vstd::set_lib::*;

use crate::algebra;
use crate::counting;
use crate::hashing;
use crate::laws;
use crate::likelihood;
use crate::likelihood::Likelihood;
use crate::probability;
use crate::register;
use crate::state;
use crate::state::SketchView;
use crate::state::Variant;

verus! {

/// The update values that registers record: pairs of a register index and a value
/// that a hash brought to it.
pub open spec fn recorded_pairs(registers: Seq<u32>, d: u32) -> Set<(int, int)> {
    Set::new(
        |pair: (int, int)|
            0 <= pair.0 < registers.len() && 1 <= pair.1 && register::recorded(
                registers[pair.0],
                d,
                pair.1,
            ),
    )
}

/// Those of the recorded update values that come with probability `2^-level`.
pub open spec fn pairs_at_level(registers: Seq<u32>, p: u32, d: u32, level: int) -> Set<
    (int, int),
> {
    recorded_pairs(registers, d).filter(
        |pair: (int, int)| likelihood::phi_of(pair.1, p) == level,
    )
}

/// The recorded values of one register in `lo..=hi` with a given level.
spec fn values_at_level(r: u32, p: u32, d: u32, lo: int, hi: int, level: int) -> Set<int> {
    Set::new(
        |v: int|
            lo <= v <= hi && register::recorded(r, d, v) && likelihood::phi_of(v, p) == level,
    )
}

proof fn lemma_values_at_level_len(r: u32, p: u32, d: u32, lo: int, hi: int, level: int)
    ensures
        values_at_level(r, p, d, lo, hi, level).finite(),
        values_at_level(r, p, d, lo, hi, level).len() == likelihood::recorded_at_level(
            r,
            p,
            d,
            lo,
            hi,
            level,
        ),
    decreases hi - lo + 1,
{
    let all = values_at_level(r, p, d, lo, hi, level);
    if hi < lo {
        assert(all =~= Set::empty());
    } else {
        let rest = values_at_level(r, p, d, lo, hi - 1, level);
        lemma_values_at_level_len(r, p, d, lo, hi - 1, level);
        if register::recorded(r, d, hi) && likelihood::phi_of(hi, p) == level {
            assert(all =~= rest.insert(hi));
        } else {
            assert(all =~= rest);
        }
    }
}

/// Values paired with a register index are as many.
proof fn lemma_paired_len(values: Set<int>, i: int) -> (pairs: Set<(int, int)>)
    requires
        values.finite(),
    ensures
        pairs == Set::new(|pair: (int, int)| pair.0 == i && values.contains(pair.1)),
        pairs.finite(),
        pairs.len() == values.len(),
    decreases values.len(),
{
    let pairs = Set::new(|pair: (int, int)| pair.0 == i && values.contains(pair.1));
    if values.len() == 0 {
        assert(values =~= Set::empty());
        assert(pairs =~= Set::empty());
    } else {
        let v = values.choose();
        let rest = lemma_paired_len(values.remove(v), i);
        assert(pairs =~= rest.insert((i, v)));
    }
    pairs
}

proof fn lemma_pairs_at_level_len(registers: Seq<u32>, p: u32, d: u32, level: int)
    requires
        1 <= d <= 24,
    ensures
        pairs_at_level(registers, p, d, level).finite(),
        pairs_at_level(registers, p, d, level).len() == likelihood::total_at_level(
            registers,
            p,
            d,
            level,
        ),
    decreases registers.len(),
{
    let all = pairs_at_level(registers, p, d, level);
    if registers.len() == 0 {
        assert(all =~= Set::empty());
    } else {
        let n = registers.len() - 1;
        let r = registers.last();
        let before = registers.drop_last();
        let rest = pairs_at_level(before, p, d, level);
        lemma_pairs_at_level_len(before, p, d, level);
        let lo = likelihood::window_start(r, d);
        let hi = register::top(r, d);
        let values = values_at_level(r, p, d, lo, hi, level);
        lemma_values_at_level_len(r, p, d, lo, hi, level);
        let more = lemma_paired_len(values, n);
        assert forall|pair: (int, int)| #[trigger] all.contains(pair) == rest.union(
            more,
        ).contains(pair) by {
            if 0 <= pair.0 < n {
                assert(before[pair.0] == registers[pair.0]);
            }
        }
        assert(all =~= rest.union(more));
        assert(rest.disjoint(more));
        lemma_set_disjoint_lens(rest, more);
    }
}

/// The recorded values up to a level.
spec fn pairs_below(registers: Seq<u32>, p: u32, d: u32, level: int) -> Set<(int, int)> {
    recorded_pairs(registers, d).filter(
        |pair: (int, int)| likelihood::phi_of(pair.1, p) < level,
    )
}

proof fn lemma_observations_below(l: Likelihood, registers: Seq<u32>, d: u32, n: int)
    requires
        l.p <= 26,
        1 <= d <= 24,
        l.is_of_registers(registers, d),
        0 <= n <= l.beta@.len(),
    ensures
        pairs_below(registers, l.p, d, n + 3).finite(),
        pairs_below(registers, l.p, d, n + 3).len() == likelihood::observations(
            l.beta@.take(n),
        ),
    decreases n,
{
    let p = l.p;
    let all = pairs_below(registers, p, d, n + 3);
    if n == 0 {
        assert(all =~= Set::empty());
    } else {
        let rest = pairs_below(registers, p, d, n + 2);
        let more = pairs_at_level(registers, p, d, n + 2);
        lemma_observations_below(l, registers, d, n - 1);
        lemma_pairs_at_level_len(registers, p, d, n + 2);
        assert(l.beta@[n - 1] == likelihood::total_at_level(registers, p, d, n - 1 + 3));
        assert(all =~= rest.union(more));
        assert(rest.disjoint(more));
        lemma_set_disjoint_lens(rest, more);
        assert(l.beta@.take(n).drop_last() =~= l.beta@.take(n - 1));
    }
}

/// The coefficients of a dense sketch count every recorded update value exactly once,
/// at the level of its probability, at every precision.
pub proof fn beta_counts_recorded_values(l: Likelihood, registers: Seq<u32>, d: u32)
    requires
        l.p <= 26,
        1 <= d <= 24,
        l.is_of_registers(registers, d),
    ensures
        forall|j: int|
            0 <= j < l.beta@.len() ==> #[trigger] l.beta@[j] == pairs_at_level(
                registers,
                l.p,
                d,
                j + 3,
            ).len(),
        recorded_pairs(registers, d).finite(),
        likelihood::observations(l.beta@) == recorded_pairs(registers, d).len(),
{
    let p = l.p;
    assert forall|j: int| 0 <= j < l.beta@.len() implies #[trigger] l.beta@[j] == pairs_at_level(
        registers,
        p,
        d,
        j + 3,
    ).len() by {
        lemma_pairs_at_level_len(registers, p, d, j + 3);
    }
    let n = l.beta@.len() as int;
    lemma_observations_below(l, registers, d, n);
    assert(l.beta@.take(n) =~= l.beta@);
    assert(pairs_below(registers, p, d, n + 3) =~= recorded_pairs(registers, d));
}

/// What the coefficients count in a sketch that stands for hashes is what the hashes
/// brought: each pair of a register and an update value once, however many hashes
/// brought it, unless the window has moved past it.
pub proof fn recorded_values_come_from_hashes(
    view: SketchView,
    hashes: Set<u64>,
    variant: Variant,
)
    requires
        laws::ordinary(variant),
        laws::represents(view, hashes, variant),
    ensures
        forall|i: int, v: int| #[trigger]
            recorded_pairs(view.registers, variant.d).contains((i, v)) <==> {
                &&& 0 <= i < pow2(view.p as nat)
                &&& register::top(view.registers[i], variant.d) - variant.d <= v
                &&& exists|hash: u64| #[trigger]
                    hashes.contains(hash) && hashing::register_index(hash, view.p) == i
                        && hashing::update_value(hash, view.p) == v
            },
{
    let p = view.p;
    let d = variant.d;
    assert forall|i: int, v: int| #[trigger]
        recorded_pairs(view.registers, d).contains((i, v)) <==> {
            &&& 0 <= i < pow2(p as nat)
            &&& register::top(view.registers[i], d) - d <= v
            &&& state::values_at(hashes, p, i).contains(v)
        } by {
        if 0 <= i < pow2(p as nat) {
            algebra::lemma_absorb_hashes(state::empty_registers(p), hashes, p, d, i);
            algebra::lemma_values_in_range(hashes, p, i);
            laws::lemma_from_empty(view.registers[i], d, state::values_at(hashes, p, i));
            assert(register::recorded(view.registers[i], d, v) <==> (v >= register::top(
                view.registers[i],
                d,
            ) - d && (v == 0 || state::values_at(hashes, p, i).contains(v))));
        }
    }
}

/// Probability, scaled by `2^(64-p)`, of the update values that the window of `r` has
/// room for, and of those above.
pub open spec fn reach_weight(r: u32, p: u32, d: u32) -> int {
    likelihood::omega_of(likelihood::window_start(r, d) - 1, p)
}

/// The same for all registers.
pub open spec fn total_reach_weight(registers: Seq<u32>, p: u32, d: u32) -> int {
    registers.fold_left(0int, |sum: int, r: u32| sum + reach_weight(r, p, d))
}

/// The weight of the values in `lo..=hi` that `r` records.
spec fn seen_weight(r: u32, p: u32, d: u32, lo: int, hi: int) -> int
    decreases hi - lo + 1,
{
    if hi < lo {
        0
    } else {
        seen_weight(r, p, d, lo, hi - 1) + if register::recorded(r, d, hi) {
            likelihood::value_weight(hi, p)
        } else {
            0
        }
    }
}

/// What is seen and what is missing is all there is.
proof fn lemma_seen_and_missing(r: u32, p: u32, d: u32, lo: int, hi: int)
    requires
        p <= 26,
        1 <= lo <= hi + 1,
    ensures
        seen_weight(r, p, d, lo, hi) + likelihood::missing_weight(r, p, d, lo, hi + 1)
            == likelihood::omega_of(lo - 1, p) - likelihood::omega_of(hi, p),
    decreases hi - lo + 1,
{
    if lo <= hi {
        lemma_seen_and_missing(r, p, d, lo, hi - 1);
        probability::lemma_omega_step(hi, p);
    }
}

/// Counts by level, weighted by the probability of the level, for the first `n` levels.
spec fn weighted(counts: spec_fn(int) -> int, p: u32, n: int) -> int
    decreases n,
{
    if n <= 0 {
        0
    } else {
        weighted(counts, p, n - 1) + counts(n + 2) * pow2((64 - p - (n + 2)) as nat)
    }
}

proof fn lemma_weighted_plus(
    a: spec_fn(int) -> int,
    b: spec_fn(int) -> int,
    c: spec_fn(int) -> int,
    p: u32,
    n: int,
)
    requires
        forall|level: int| 3 <= level < n + 3 ==> c(level) == #[trigger] a(level) + b(level),
    ensures
        weighted(c, p, n) == weighted(a, p, n) + weighted(b, p, n),
    decreases n,
{
    if n > 0 {
        lemma_weighted_plus(a, b, c, p, n - 1);
        let w = pow2((64 - p - (n + 2)) as nat) as int;
        let (x, y) = (a(n + 2), b(n + 2));
        assert(c(n + 2) == x + y);
        assert((x + y) * w == x * w + y * w) by (nonlinear_arith);
    }
}

proof fn lemma_weighted_zero(a: spec_fn(int) -> int, p: u32, n: int)
    requires
        forall|level: int| 3 <= level < n + 3 ==> #[trigger] a(level) == 0,
    ensures
        weighted(a, p, n) == 0,
    decreases n,
{
    if n > 0 {
        lemma_weighted_zero(a, p, n - 1);
        assert(a(n + 2) == 0);
        assert(0 * pow2((64 - p - (n + 2)) as nat) == 0);
    }
}

/// A single count at one level.
proof fn lemma_weighted_one(a: spec_fn(int) -> int, p: u32, n: int, at: int)
    requires
        3 <= at < n + 3,
        forall|level: int|
            3 <= level < n + 3 ==> #[trigger] a(level) == if level == at {
                1int
            } else {
                0
            },
    ensures
        weighted(a, p, n) == pow2((64 - p - at) as nat),
    decreases n,
{
    let w = pow2((64 - p - (n + 2)) as nat) as int;
    assert(1 * w == w && 0 * w == 0);
    assert(a(n + 2) == if n + 2 == at { 1int } else { 0 });
    if at == n + 2 {
        lemma_weighted_zero(a, p, n - 1);
    } else {
        lemma_weighted_one(a, p, n - 1, at);
    }
}

spec fn counts_of(r: u32, p: u32, d: u32, lo: int, hi: int) -> spec_fn(int) -> int {
    |level: int| likelihood::recorded_at_level(r, p, d, lo, hi, level) as int
}

spec fn count_one(at: int) -> spec_fn(int) -> int {
    |level: int| if level == at { 1int } else { 0 }
}

proof fn lemma_weighted_register(r: u32, p: u32, d: u32, lo: int, hi: int)
    requires
        p <= 26,
        1 <= lo,
    ensures
        weighted(counts_of(r, p, d, lo, hi), p, 62 - p) == seen_weight(r, p, d, lo, hi),
    decreases hi - lo + 1,
{
    let counts = counts_of(r, p, d, lo, hi);
    if hi < lo {
        lemma_weighted_zero(counts, p, 62 - p);
    } else {
        let rest = counts_of(r, p, d, lo, hi - 1);
        lemma_weighted_register(r, p, d, lo, hi - 1);
        if register::recorded(r, d, hi) {
            let at = likelihood::phi_of(hi, p);
            let one = count_one(at);
            lemma_weighted_one(one, p, 62 - p, at);
            lemma_weighted_plus(rest, one, counts, p, 62 - p);
        } else {
            assert(counts =~= rest);
        }
    }
}

spec fn totals_of(registers: Seq<u32>, p: u32, d: u32) -> spec_fn(int) -> int {
    |level: int| likelihood::total_at_level(registers, p, d, level) as int
}

proof fn lemma_weighted_total(registers: Seq<u32>, p: u32, d: u32)
    requires
        p <= 26,
        1 <= d <= 24,
    ensures
        likelihood::total_change_weight(registers, p, d) + weighted(
            totals_of(registers, p, d),
            p,
            62 - p,
        ) == total_reach_weight(registers, p, d),
    decreases registers.len(),
{
    let totals = totals_of(registers, p, d);
    if registers.len() == 0 {
        lemma_weighted_zero(totals, p, 62 - p);
    } else {
        let r = registers.last();
        let rest = registers.drop_last();
        lemma_weighted_total(rest, p, d);
        let lo = likelihood::window_start(r, d);
        let hi = register::top(r, d);
        let here = counts_of(r, p, d, lo, hi);
        lemma_weighted_plus(totals_of(rest, p, d), here, totals, p, 62 - p);
        lemma_weighted_register(r, p, d, lo, hi);
        lemma_change_and_seen(r, p, d);
    }
}

/// One register: what would change it and what it has seen.
proof fn lemma_change_and_seen(r: u32, p: u32, d: u32)
    requires
        p <= 26,
        1 <= d <= 24,
    ensures
        likelihood::change_weight(r, p, d) + seen_weight(
            r,
            p,
            d,
            likelihood::window_start(r, d),
            register::top(r, d),
        ) == reach_weight(r, p, d),
{
    let lo = likelihood::window_start(r, d);
    let hi = register::top(r, d);
    assert(0 <= hi);
    lemma_seen_and_missing(r, p, d, lo, hi);
    if hi >= lo {
        assert(register::recorded(r, d, hi));
    }
}

proof fn lemma_scaled_is_weighted(beta: Seq<u32>, counts: spec_fn(int) -> int, p: u32, n: int)
    requires
        0 <= n <= beta.len(),
        beta.len() <= 62 - p,
        p <= 26,
        forall|j: int| 0 <= j < beta.len() ==> #[trigger] beta[j] == counts(j + 3),
    ensures
        likelihood::scaled_observations(beta.take(n), 64 - p) == weighted(counts, p, n),
    decreases n,
{
    if n > 0 {
        lemma_scaled_is_weighted(beta, counts, p, n - 1);
        assert(beta.take(n).drop_last() =~= beta.take(n - 1));
        assert(beta[n - 1] == counts(n - 1 + 3));
        assert(beta.take(n).last() == beta[n - 1]);
    }
}

/// Each update value that a register has room for is either missing, and counts in
/// `alpha`, or observed, and counts in `beta`: weighted by their probabilities the two
/// add up to all there is.
pub proof fn observed_and_missing_add_up(l: Likelihood, registers: Seq<u32>, d: u32)
    requires
        l.p <= 26,
        1 <= d <= 24,
        l.is_of_registers(registers, d),
    ensures
        l.alpha + likelihood::scaled_observations(l.beta@, 64 - l.p) == total_reach_weight(
            registers,
            l.p,
            d,
        ),
{
    let p = l.p;
    let totals = totals_of(registers, p, d);
    let n = l.beta@.len() as int;
    lemma_weighted_total(registers, p, d);
    lemma_scaled_is_weighted(l.beta@, totals, p, n);
    assert(l.beta@.take(n) =~= l.beta@);
}

/// As long as no window has moved past the smallest value, nothing is out of reach: the
/// reach of a register is everything that selects it.
pub proof fn reach_of_young_registers(registers: Seq<u32>, p: u32, d: u32)
    requires
        p <= 26,
        1 <= d <= 24,
        forall|i: int|
            0 <= i < registers.len() ==> register::top(#[trigger] registers[i], d) <= d + 1,
    ensures
        total_reach_weight(registers, p, d) == registers.len() * pow2((64 - p) as nat),
    decreases registers.len(),
{
    let w = pow2((64 - p) as nat) as int;
    let n = registers.len() as int;
    if n > 0 {
        let rest = registers.drop_last();
        assert forall|i: int| 0 <= i < rest.len() implies register::top(#[trigger] rest[i], d) <= d
            + 1 by {
            assert(rest[i] == registers[i]);
        }
        reach_of_young_registers(rest, p, d);
        assert(register::top(registers[n - 1], d) <= d + 1);
        assert(likelihood::window_start(registers[n - 1], d) == 1);
        likelihood::lemma_empty_weight(p, d);
        assert((n - 1) * w + w == n * w) by (nonlinear_arith);
    } else {
        assert(0 * w == 0);
    }
}

/// The positions of a list whose tokens have a given level.
pub open spec fn positions_at_level(tokens: Seq<u32>, level: int) -> Set<int> {
    Set::new(|i: int| 0 <= i < tokens.len() && likelihood::token_level(tokens[i]) == level)
}

proof fn lemma_positions_len(tokens: Seq<u32>, level: int)
    ensures
        positions_at_level(tokens, level).finite(),
        positions_at_level(tokens, level).len() == likelihood::tokens_at_level(tokens, level),
    decreases tokens.len(),
{
    let all = positions_at_level(tokens, level);
    if tokens.len() == 0 {
        assert(all =~= Set::empty());
    } else {
        let before = tokens.drop_last();
        let rest = positions_at_level(before, level);
        let n = tokens.len() - 1;
        lemma_positions_len(before, level);
        assert forall|i: int| 0 <= i < n implies before[i] == tokens[i] by {}
        if likelihood::token_level(tokens.last()) == level {
            assert(all =~= rest.insert(n));
        } else {
            assert(all =~= rest);
        }
    }
}

spec fn token_totals(tokens: Seq<u32>) -> spec_fn(int) -> int {
    |level: int| likelihood::tokens_at_level(tokens, level) as int
}

proof fn lemma_token_totals(tokens: Seq<u32>)
    ensures
        weighted(token_totals(tokens), 0, 62) == likelihood::tokens_weight(tokens),
    decreases tokens.len(),
{
    let totals = token_totals(tokens);
    if tokens.len() == 0 {
        lemma_weighted_zero(totals, 0, 62);
    } else {
        let rest = token_totals(tokens.drop_last());
        let at = likelihood::token_level(tokens.last());
        lemma_token_totals(tokens.drop_last());
        lemma_weighted_one(count_one(at), 0, 62, at);
        lemma_weighted_plus(rest, count_one(at), totals, 0, 62);
    }
}

/// The positions of a list whose tokens have a level below `level`.
spec fn positions_below(tokens: Seq<u32>, level: int) -> Set<int> {
    Set::new(|i: int| 0 <= i < tokens.len() && likelihood::token_level(tokens[i]) < level)
}

proof fn lemma_tokens_below(l: Likelihood, tokens: Seq<u32>, n: int)
    requires
        l.is_of_tokens(tokens),
        0 <= n <= 62,
    ensures
        positions_below(tokens, n + 3).finite(),
        positions_below(tokens, n + 3).len() == likelihood::observations(l.beta@.take(n)),
    decreases n,
{
    let all = positions_below(tokens, n + 3);
    if n == 0 {
        assert(all =~= Set::empty());
    } else {
        let rest = positions_below(tokens, n + 2);
        let more = positions_at_level(tokens, n + 2);
        lemma_tokens_below(l, tokens, n - 1);
        lemma_positions_len(tokens, n + 2);
        assert(l.beta@[n - 1] == likelihood::tokens_at_level(tokens, n - 1 + 3));
        assert(all =~= rest.union(more));
        assert(rest.disjoint(more));
        lemma_set_disjoint_lens(rest, more);
        assert(l.beta@.take(n).drop_last() =~= l.beta@.take(n - 1));
    }
}

/// The coefficients of a sparse sketch count every token exactly once, at the level of
/// its probability; and weighted by their probabilities, what was observed and what was
/// not add up to all hashes.
pub proof fn beta_counts_tokens(l: Likelihood, tokens: Seq<u32>)
    requires
        l.is_of_tokens(tokens),
    ensures
        forall|j: int|
            0 <= j < l.beta@.len() ==> #[trigger] l.beta@[j] == positions_at_level(
                tokens,
                j + 3,
            ).len(),
        likelihood::observations(l.beta@) == tokens.len(),
        l.alpha + likelihood::scaled_observations(l.beta@, 64) == 0x1_0000_0000_0000_0000,
{
    assert forall|j: int| 0 <= j < l.beta@.len() implies #[trigger] l.beta@[j]
        == positions_at_level(tokens, j + 3).len() by {
        lemma_positions_len(tokens, j + 3);
    }
    lemma_tokens_below(l, tokens, 62);
    assert(l.beta@.take(62) =~= l.beta@);
    assert(positions_below(tokens, 65) =~= set_int_range(0, tokens.len() as int));
    lemma_int_range(0, tokens.len() as int);
    lemma_token_totals(tokens);
    lemma_scaled_is_weighted(l.beta@, token_totals(tokens), 0, 62);
}

/// `alpha` of a sparse sketch is the number of hashes whose token it does not have yet.
pub proof fn alpha_counts_new_tokens(l: Likelihood, tokens: Seq<u32>)
    requires
        l.is_of_tokens(tokens),
        tokens.no_duplicates(),
        forall|i: int| 0 <= i < tokens.len() ==> counting::is_token(#[trigger] tokens[i]),
    ensures
        counting::hashes_with_tokens(tokens).finite(),
        l.alpha + counting::hashes_with_tokens(tokens).len() == 0x1_0000_0000_0000_0000,
{
    counting::token_weight_counts_hashes(tokens);
}

/// The number of observations is the sum of the counts.
pub proof fn observations_are_a_sum(beta: Seq<u32>)
    ensures
        likelihood::observations(beta) == beta.fold_left(0nat, |sum: nat, b: u32| sum + b as nat),
    decreases beta.len(),
{
    if beta.len() > 0 {
        observations_are_a_sum(beta.drop_last());
    }
}

/// A count at level `u` weighs `2^(u_max - u)`, and the weights of two stretches of
/// levels add up.
pub proof fn scaled_observations_are_a_sum(beta: Seq<u32>, b: u32, u_max: int)
    ensures
        likelihood::scaled_observations(Seq::empty(), u_max) == 0,
        likelihood::scaled_observations(beta.push(b), u_max) == likelihood::scaled_observations(
            beta,
            u_max,
        ) + b as nat * pow2((u_max - (beta.len() + 3)) as nat),
{
    assert(beta.push(b).drop_last() =~= beta);
}

} // verus!
