//! What the estimators need to know of a sketch, in exact integers.
//!
//! With `2^p` registers, a new hash brings update value `k` to a given register
//! with probability `2^-phi(k)`, as long as the hash selects that register. All
//! probabilities here are scaled by `2^(64-p)`, which makes them integers.

use vstd::arithmetic::power2::*;
use vstd::bits::*;
use vstd::prelude::*;

use crate::hashing;
use crate::register;
use crate::T;

verus! {

/// `min(t + 1 + floor((k - 1) / 2^t), 64 - p)`.
pub open spec fn phi_of(k: int, p: u32) -> int {
    let v = 3 + (k - 1) / 4;
    if v < 64 - p {
        v
    } else {
        64 - p
    }
}

/// Probability of update value `k`, scaled by `2^(64-p)`.
pub open spec fn value_weight(k: int, p: u32) -> int {
    pow2((64 - p - phi_of(k, p)) as nat) as int
}

/// Probability of an update value above `u`, scaled by `2^(64-p)`:
/// `(2^t (1 - t + phi(u)) - u) / 2^phi(u)`.
pub open spec fn omega_of(u: int, p: u32) -> int {
    (4 * (phi_of(u, p) - 1) - u) * value_weight(u, p)
}

/// Probability of the update values in `lo..hi` that `r` does not record, scaled
/// by `2^(64-p)`.
pub open spec fn missing_weight(r: u32, p: u32, d: u32, lo: int, hi: int) -> int
    decreases hi - lo,
{
    if hi <= lo {
        0
    } else {
        missing_weight(r, p, d, lo, hi - 1) + if register::recorded(r, d, hi - 1) {
            0
        } else {
            value_weight(hi - 1, p)
        }
    }
}

/// Smallest update value that `r` can record besides its largest one.
pub open spec fn window_start(r: u32, d: u32) -> int {
    if register::top(r, d) - d > 1 {
        register::top(r, d) - d
    } else {
        1
    }
}

/// Probability that a hash which selects the register `r` changes it, scaled by
/// `2^(64-p)`.
pub open spec fn change_weight(r: u32, p: u32, d: u32) -> int {
    omega_of(register::top(r, d), p) + missing_weight(
        r,
        p,
        d,
        window_start(r, d),
        register::top(r, d),
    )
}

/// Probability that a hash changes some register, scaled by `2^64`.
pub open spec fn total_change_weight(registers: Seq<u32>, p: u32, d: u32) -> int
    decreases registers.len(),
{
    if registers.len() == 0 {
        0
    } else {
        total_change_weight(registers.drop_last(), p, d) + change_weight(registers.last(), p, d)
    }
}

/// Number of update values in `lo..=hi` that `r` records and whose probability
/// is `2^-level`.
pub open spec fn recorded_at_level(r: u32, p: u32, d: u32, lo: int, hi: int, level: int) -> nat
    decreases hi - lo + 1,
{
    if hi < lo {
        0
    } else {
        recorded_at_level(r, p, d, lo, hi - 1, level) + if register::recorded(r, d, hi) && phi_of(
            hi,
            p,
        ) == level {
            1nat
        } else {
            0nat
        }
    }
}

/// Number of recorded update values with probability `2^-level` in all registers.
pub open spec fn total_at_level(registers: Seq<u32>, p: u32, d: u32, level: int) -> nat
    decreases registers.len(),
{
    if registers.len() == 0 {
        0
    } else {
        let r = registers.last();
        total_at_level(registers.drop_last(), p, d, level) + recorded_at_level(
            r,
            p,
            d,
            window_start(r, d),
            register::top(r, d),
            level,
        )
    }
}

/// `min(t + 1 + floor((k - 1) / 2^t), 64 - p)`, the exponent of the probability
/// of update value `k`.
pub fn phi(k: u32, p: u32) -> (res: u32)
    requires
        p <= 64,
    ensures
        res == phi_of(k as int, p),
{
    let v: u32 = if k == 0 {
        T
    } else {
        T + 1 + (k - 1) / 4
    };
    if v < 64 - p {
        v
    } else {
        64 - p
    }
}

/// `2^(64 - p - phi(k))`.
fn weight_of(k: u32, p: u32) -> (res: i128)
    requires
        p <= 26,
    ensures
        res == value_weight(k as int, p),
        1 <= res <= 0x4000_0000_0000_0000,
{
    let e: u32 = 64 - p - phi(k, p);
    proof {
        lemma_u64_pow2_no_overflow(e as nat);
        lemma_u64_shl_is_mul(1, e as u64);
        lemma_pow2_pos(e as nat);
        hashing::lemma_pow2_monotonic(e as nat, 62);
        lemma2_to64_rest();
    }
    (1u64 << e) as i128
}

/// Probability of an update value above `u`, scaled by `2^(64-p)`.
pub fn omega(u: u32, p: u32) -> (res: i128)
    requires
        p <= 26,
    ensures
        res == omega_of(u as int, p),
        -0x1_0000_0000 * 0x4000_0000_0000_0000 <= res <= 0x100 * 0x4000_0000_0000_0000,
{
    let f: i128 = 4 * (phi(u, p) as i128 - 1) - u as i128;
    let w: i128 = weight_of(u, p);
    assert(-0x1_0000_0000 * 0x4000_0000_0000_0000 <= f * w <= 0x100 * 0x4000_0000_0000_0000)
        by (nonlinear_arith)
        requires
            -0x1_0000_0000 <= f <= 0x100,
            1 <= w <= 0x4000_0000_0000_0000,
    ;
    f * w
}

/// Probability that a hash which selects the register `r` changes it, scaled by
/// `2^(64-p)`.
pub fn h(r: u32, p: u32, d: u32) -> (res: i128)
    requires
        p <= 26,
        1 <= d <= register::MAX_D,
    ensures
        res == change_weight(r, p, d),
        -0x1_0000_0000 * 0x4000_0000_0000_0000 <= res <= 0x200 * 0x4000_0000_0000_0000,
{
    let u: u32 = r >> d;
    let lo: u32 = if u > d + 1 {
        u - d
    } else {
        1
    };
    let mut acc: i128 = omega(u, p);
    let ghost base = acc;
    let mut k: u32 = lo;
    while k < u
        invariant
            u == r >> d,
            p <= 26,
            1 <= d <= 24,
            lo == window_start(r, d),
            lo <= k,
            k <= u || k == lo,
            acc == base + missing_weight(r, p, d, lo as int, k as int),
            base <= acc <= base + (k - lo) * 0x4000_0000_0000_0000,
            -0x1_0000_0000 * 0x4000_0000_0000_0000 <= base <= 0x100 * 0x4000_0000_0000_0000,
        decreases u - k,
    {
        let set: bool = register::is_recorded(r, d, k);
        if !set {
            acc = acc + weight_of(k, p);
        }
        k = k + 1;
    }
    acc
}

/// The probability of an update value is positive and at most 1.
pub proof fn lemma_value_weight_bounds(k: int, p: u32)
    requires
        0 <= k,
        p <= 26,
    ensures
        2 <= phi_of(k, p) <= 64 - p,
        1 <= value_weight(k, p) <= 0x4000_0000_0000_0000,
{
    let e = (64 - p - phi_of(k, p)) as nat;
    lemma_pow2_pos(e);
    hashing::lemma_pow2_monotonic(e, 62);
    lemma2_to64_rest();
}

proof fn lemma_missing_weight_bounds(r: u32, p: u32, d: u32, lo: int, hi: int)
    requires
        0 <= lo,
        p <= 26,
    ensures
        0 <= missing_weight(r, p, d, lo, hi),
        lo <= hi ==> missing_weight(r, p, d, lo, hi) <= (hi - lo) * 0x4000_0000_0000_0000,
    decreases hi - lo,
{
    if lo < hi {
        lemma_missing_weight_bounds(r, p, d, lo, hi - 1);
        lemma_value_weight_bounds(hi - 1, p);
    }
}

/// Bounds on the weight of one register, whatever it holds.
pub proof fn lemma_change_weight_bounds(r: u32, p: u32, d: u32)
    requires
        p <= 26,
        1 <= d <= 24,
    ensures
        -0x1_0000_0000 * 0x4000_0000_0000_0000 <= change_weight(r, p, d) <= 0x200
            * 0x4000_0000_0000_0000,
{
    let u = register::top(r, d);
    lemma_value_weight_bounds(u, p);
    lemma_missing_weight_bounds(r, p, d, window_start(r, d), u);
    let f = 4 * (phi_of(u, p) - 1) - u;
    let w = value_weight(u, p);
    assert(-0x1_0000_0000 * 0x4000_0000_0000_0000 <= f * w <= 0x100 * 0x4000_0000_0000_0000)
        by (nonlinear_arith)
        requires
            -0x1_0000_0000 <= f <= 0x100,
            1 <= w <= 0x4000_0000_0000_0000,
    ;
}

/// Bounds on the weight of all registers.
pub proof fn lemma_total_bounds(registers: Seq<u32>, p: u32, d: u32)
    requires
        p <= 26,
        1 <= d <= 24,
    ensures
        -(registers.len() * 0x1_0000_0000 * 0x4000_0000_0000_0000) <= total_change_weight(
            registers,
            p,
            d,
        ) <= registers.len() * 0x200 * 0x4000_0000_0000_0000,
    decreases registers.len(),
{
    if registers.len() > 0 {
        lemma_total_bounds(registers.drop_last(), p, d);
        lemma_change_weight_bounds(registers.last(), p, d);
    }
}

/// Changing one register changes the total by the difference of its weights.
pub proof fn lemma_total_update(registers: Seq<u32>, i: int, r: u32, p: u32, d: u32)
    requires
        0 <= i < registers.len(),
    ensures
        total_change_weight(registers.update(i, r), p, d) == total_change_weight(registers, p, d)
            - change_weight(registers[i], p, d) + change_weight(r, p, d),
    decreases registers.len(),
{
    let after = registers.update(i, r);
    if i == registers.len() - 1 {
        assert(after.drop_last() =~= registers.drop_last());
    } else {
        assert(after.drop_last() =~= registers.drop_last().update(i, r));
        lemma_total_update(registers.drop_last(), i, r, p, d);
    }
}

/// An empty register is changed by every hash that selects it.
pub proof fn lemma_empty_weight(p: u32, d: u32)
    requires
        p <= 26,
        1 <= d <= 24,
    ensures
        register::top(0, d) == 0,
        change_weight(0, p, d) == pow2((64 - p) as nat),
{
    assert(0u32 >> d == 0) by (bit_vector);
    lemma_pow2_unfold((64 - p) as nat);
    lemma_pow2_unfold((63 - p) as nat);
    assert(phi_of(0, p) == 2);
    assert(omega_of(0, p) == 4 * pow2((62 - p) as nat));
}

/// An empty sketch is changed by every hash.
pub proof fn lemma_empty_total(registers: Seq<u32>, p: u32, d: u32)
    requires
        p <= 26,
        1 <= d <= 24,
        forall|i: int| 0 <= i < registers.len() ==> registers[i] == 0,
    ensures
        total_change_weight(registers, p, d) == registers.len() * pow2((64 - p) as nat),
    decreases registers.len(),
{
    let n = registers.len() as int;
    let w = pow2((64 - p) as nat) as int;
    if n > 0 {
        lemma_empty_total(registers.drop_last(), p, d);
        lemma_empty_weight(p, d);
        assert((n - 1) * w + w == n * w) by (nonlinear_arith);
    } else {
        assert(0 * w == 0);
    }
}

/// Coefficients of the log-likelihood of a distinct count, which is maximal at
/// the solution `y` of
/// `sum over levels u of beta_u / (2^u (exp(y / 2^u) - 1)) = alpha / 2^(64-p)`;
/// the estimate is `2^p y`.
pub struct Likelihood {
    /// `p` of the register array that the coefficients belong to.
    pub p: u32,
    /// The coefficient of `-y`, scaled by `2^(64-p)`.
    pub alpha: i128,
    /// Entry `j` counts what was observed with probability `2^-(j+3)`.
    pub beta: Vec<u32>,
}

/// A register records few values of any probability.
proof fn lemma_at_level_bound(r: u32, p: u32, d: u32, lo: int, hi: int, level: int)
    ensures
        recorded_at_level(r, p, d, lo, hi, level) <= if hi < lo {
            0
        } else {
            hi - lo + 1
        },
    decreases hi - lo + 1,
{
    if lo <= hi {
        lemma_at_level_bound(r, p, d, lo, hi - 1, level);
    }
}

/// All registers together record at most 25 values each.
proof fn lemma_total_at_level_bound(registers: Seq<u32>, p: u32, d: u32, level: int)
    requires
        1 <= d <= 24,
    ensures
        total_at_level(registers, p, d, level) <= registers.len() * 25,
    decreases registers.len(),
{
    if registers.len() > 0 {
        let r = registers.last();
        lemma_total_at_level_bound(registers.drop_last(), p, d, level);
        lemma_at_level_bound(r, p, d, window_start(r, d), register::top(r, d), level);
    }
}

/// Count the values that `r` records, by their probability.
fn count_recorded(beta: &mut Vec<u32>, r: u32, p: u32, d: u32)
    requires
        p <= 26,
        1 <= d <= 24,
        old(beta)@.len() == 62 - p,
        forall|j: int| 0 <= j < old(beta)@.len() ==> (#[trigger] old(beta)@[j]) + 25 <= u32::MAX,
    ensures
        final(beta)@.len() == old(beta)@.len(),
        forall|j: int|
            0 <= j < final(beta)@.len() ==> #[trigger] final(beta)@[j] == old(beta)@[j]
                + recorded_at_level(
                r,
                p,
                d,
                window_start(r, d),
                register::top(r, d),
                j + 3,
            ),
{
    let ghost before = beta@;
    let u: u32 = r >> d;
    if u == 0 {
        return;
    }
    let lo: u32 = if u > d + 1 {
        u - d
    } else {
        1
    };
    assert(lo == window_start(r, d));
    assert(r >> d <= 0x8000_0000) by (bit_vector)
        requires
            1 <= d <= 24,
    ;
    let mut k: u32 = lo;
    while k <= u
        invariant
            1 <= lo <= k <= u + 1,
            u == r >> d,
            u - lo <= 24,
            u <= 0x8000_0000,
            lo == window_start(r, d),
            p <= 26,
            1 <= d <= 24,
            before.len() == beta@.len() == 62 - p,
            forall|j: int| 0 <= j < before.len() ==> (#[trigger] before[j]) + 25 <= u32::MAX,
            forall|j: int|
                0 <= j < before.len() ==> #[trigger] beta@[j] == before[j] + recorded_at_level(
                    r,
                    p,
                    d,
                    lo as int,
                    k - 1,
                    j + 3,
                ),
        decreases u + 1 - k,
    {
        let seen: bool = k == u || register::is_recorded(r, d, k);
        let at: usize = (phi(k, p) - 3) as usize;
        proof {
            lemma_at_level_bound(r, p, d, lo as int, k - 1, at + 3);
        }
        if seen {
            beta[at] = beta[at] + 1;
        }
        k = k + 1;
    }
}

/// Account for one more register.
fn add_register(tally: &mut Likelihood, r: u32, d: u32, Ghost(registers): Ghost<Seq<u32>>)
    requires
        old(tally).is_of_registers(registers, d),
        old(tally).p <= 26,
        1 <= d <= 24,
        registers.len() < 0x400_0000,
    ensures
        final(tally).is_of_registers(registers.push(r), d),
        final(tally).p == old(tally).p,
{
    let p: u32 = tally.p;
    proof {
        lemma_total_bounds(registers, p, d);
        assert(registers.push(r).drop_last() =~= registers);
        assert forall|j: int| 0 <= j < tally.beta@.len() implies (#[trigger] tally.beta@[j]) + 25
            <= u32::MAX by {
            lemma_total_at_level_bound(registers, p, d, j + 3);
        }
    }
    count_recorded(&mut tally.beta, r, p, d);
    tally.alpha = tally.alpha + h(r, p, d);
}

impl Likelihood {
    /// Whether these are the coefficients that the registers give.
    pub open spec fn is_of_registers(self, registers: Seq<u32>, d: u32) -> bool {
        &&& self.alpha == total_change_weight(registers, self.p, d)
        &&& self.beta@.len() == 62 - self.p
        &&& forall|j: int|
            0 <= j < self.beta@.len() ==> #[trigger] self.beta@[j] == total_at_level(
                registers,
                self.p,
                d,
                j + 3,
            )
    }

    /// Whether these are the coefficients that a list of tokens gives: those of a
    /// single register that records every token.
    pub open spec fn is_of_tokens(self, tokens: Seq<u32>) -> bool {
        &&& self.p == 0
        &&& self.alpha == 0x1_0000_0000_0000_0000 - tokens_weight(tokens)
        &&& self.beta@.len() == 62
        &&& forall|j: int|
            0 <= j < self.beta@.len() ==> #[trigger] self.beta@[j] == tokens_at_level(tokens, j + 3)
    }
}

/// The coefficients that registers give.
pub fn compute_alpha_beta(registers: &Vec<u32>, p: u32, d: u32) -> (res: Likelihood)
    requires
        p <= 26,
        1 <= d <= register::MAX_D,
        registers@.len() <= 0x400_0000,
    ensures
        res.p == p,
        res.is_of_registers(registers@, d),
{
    let levels: usize = (62 - p) as usize;
    let beta: Vec<u32> = vec![0u32; levels];
    let mut tally = Likelihood { p, alpha: 0, beta };
    let mut i: usize = 0;
    while i < registers.len()
        invariant
            i <= registers@.len() <= 0x400_0000,
            p <= 26,
            1 <= d <= 24,
            tally.p == p,
            tally.is_of_registers(registers@.take(i as int), d),
        decreases registers@.len() - i,
    {
        let r: u32 = registers[i];
        assert(registers@.take(i + 1) =~= registers@.take(i as int).push(r));
        add_register(&mut tally, r, d, Ghost(registers@.take(i as int)));
        i = i + 1;
    }
    assert(registers@.take(i as int) =~= registers@);
    tally
}

/// Exponent of the probability of a token.
pub open spec fn token_level(token: u32) -> int {
    if token as int % 64 < 37 {
        27 + token as int % 64
    } else {
        64
    }
}

/// Probability of a hash with one of the tokens, scaled by `2^64`.
pub open spec fn tokens_weight(tokens: Seq<u32>) -> int
    decreases tokens.len(),
{
    if tokens.len() == 0 {
        0
    } else {
        tokens_weight(tokens.drop_last()) + pow2((64 - token_level(tokens.last())) as nat)
    }
}

/// Number of tokens with probability `2^-level`.
pub open spec fn tokens_at_level(tokens: Seq<u32>, level: int) -> nat
    decreases tokens.len(),
{
    if tokens.len() == 0 {
        0
    } else {
        tokens_at_level(tokens.drop_last(), level) + if token_level(tokens.last()) == level {
            1nat
        } else {
            0nat
        }
    }
}

proof fn lemma_tokens_bounds(tokens: Seq<u32>, level: int)
    ensures
        0 <= tokens_weight(tokens) <= tokens.len() * 0x20_0000_0000,
        tokens_at_level(tokens, level) <= tokens.len(),
    decreases tokens.len(),
{
    if tokens.len() > 0 {
        lemma_tokens_bounds(tokens.drop_last(), level);
        let e = (64 - token_level(tokens.last())) as nat;
        hashing::lemma_pow2_monotonic(e, 37);
        lemma2_to64_rest();
    }
}

/// The coefficients that a list of distinct tokens gives.
pub fn token_alpha_beta(tokens: &Vec<u32>) -> (res: Likelihood)
    requires
        tokens@.len() <= u32::MAX,
    ensures
        res.is_of_tokens(tokens@),
{
    let mut beta: Vec<u32> = vec![0u32; 62];
    let mut alpha: i128 = 0x1_0000_0000_0000_0000;
    let mut i: usize = 0;
    while i < tokens.len()
        invariant
            i <= tokens@.len() <= u32::MAX,
            beta@.len() == 62,
            alpha == 0x1_0000_0000_0000_0000 - tokens_weight(tokens@.take(i as int)),
            forall|j: int|
                0 <= j < 62 ==> #[trigger] beta@[j] == tokens_at_level(
                    tokens@.take(i as int),
                    j + 3,
                ),
        decreases tokens@.len() - i,
    {
        let token: u32 = tokens[i];
        let nlz: u32 = token % 64;
        let level: u32 = if nlz < 37 {
            27 + nlz
        } else {
            64
        };
        let e: u32 = 64 - level;
        proof {
            let seen = tokens@.take(i as int);
            assert(tokens@.take(i + 1).drop_last() =~= seen);
            lemma_tokens_bounds(seen, level as int);
            lemma_u64_pow2_no_overflow(e as nat);
            lemma_u64_shl_is_mul(1, e as u64);
        }
        alpha = alpha - (1u64 << e) as i128;
        let at: usize = (level - 3) as usize;
        beta[at] = beta[at] + 1;
        i = i + 1;
    }
    assert(tokens@.take(i as int) =~= tokens@);
    Likelihood { p: 0, alpha, beta }
}

/// Where the likelihood equation has its solution.
#[derive(Debug, PartialEq, Eq, Structural)]
pub enum Root {
    /// Nothing was observed: the estimate is 0.
    Zero,
    /// Everything was observed: the likelihood grows without bound.
    Unbounded,
    /// The solution is positive.
    Positive {
        /// Smallest level with an observation.
        u_min: u32,
        /// Largest level with an observation.
        u_max: u32,
        /// Number of observations.
        sigma_0: u64,
        /// Sum of `beta_u * 2^(u_max - u)` over the levels `u`.
        sigma_1: u128,
    },
}

/// Whether nothing was observed.
pub open spec fn nothing_observed(beta: Seq<u32>) -> bool {
    forall|j: int| 0 <= j < beta.len() ==> beta[j] == 0
}

/// Number of observations.
pub open spec fn observations(beta: Seq<u32>) -> nat
    decreases beta.len(),
{
    if beta.len() == 0 {
        0
    } else {
        observations(beta.drop_last()) + beta.last() as nat
    }
}

/// Sum of `beta_u * 2^(u_max - u)` over the levels `u` up to `u_max`.
pub open spec fn scaled_observations(beta: Seq<u32>, u_max: int) -> nat
    decreases beta.len(),
{
    if beta.len() == 0 {
        0
    } else {
        scaled_observations(beta.drop_last(), u_max) + beta.last() as nat * pow2(
            (u_max - (beta.len() + 2)) as nat,
        )
    }
}

/// Where the equation with the given coefficients has its solution.
pub fn locate_root(alpha: i128, beta: &Vec<u32>) -> (res: Root)
    requires
        beta@.len() <= 62,
    ensures
        nothing_observed(beta@) <==> res == Root::Zero,
        !nothing_observed(beta@) && alpha <= 0 <==> res == Root::Unbounded,
        res matches Root::Positive { u_min, u_max, sigma_0, sigma_1 } ==> {
            &&& 3 <= u_min <= u_max < beta@.len() + 3
            &&& beta@[u_min - 3] > 0
            &&& beta@[u_max - 3] > 0
            &&& forall|j: int|
                0 <= j < beta@.len() && beta@[j] > 0 ==> u_min <= j + 3 <= u_max
            &&& sigma_0 == observations(beta@)
            &&& sigma_1 == scaled_observations(beta@.take(u_max - 2), u_max as int)
        },
{
    let mut found: bool = false;
    let mut u_min: u32 = 0;
    let mut u_max: u32 = 0;
    let mut sigma_0: u64 = 0;
    let mut j: usize = 0;
    while j < beta.len()
        invariant
            j <= beta@.len() <= 62,
            sigma_0 == observations(beta@.take(j as int)),
            sigma_0 <= j * 0x1_0000_0000,
            !found ==> forall|x: int| 0 <= x < j ==> beta@[x] == 0,
            found ==> 3 <= u_min <= u_max < j + 3 && beta@[u_min - 3] > 0 && beta@[u_max - 3] > 0,
            found ==> forall|x: int| 0 <= x < j && beta@[x] > 0 ==> u_min <= x + 3 <= u_max,
        decreases beta@.len() - j,
    {
        assert(beta@.take(j + 1).drop_last() =~= beta@.take(j as int));
        let b: u32 = beta[j];
        sigma_0 = sigma_0 + b as u64;
        if b > 0 {
            let u: u32 = j as u32 + T + 1;
            if !found {
                u_min = u;
                found = true;
            }
            u_max = u;
        }
        j = j + 1;
    }
    assert(beta@.take(j as int) =~= beta@);
    if !found {
        return Root::Zero;
    }
    assert(!nothing_observed(beta@));
    if alpha <= 0 {
        return Root::Unbounded;
    }
    let mut sigma_1: u128 = 0;
    let mut u: u32 = 3;
    while u <= u_max
        invariant
            3 <= u <= u_max + 1,
            u_max < beta@.len() + 3,
            beta@.len() <= 62,
            sigma_1 == scaled_observations(beta@.take(u - 3), u_max as int),
            sigma_1 <= (u - 3) * 0x4000_0000_0000_0000_0000_0000,
        decreases u_max + 1 - u,
    {
        let b: u32 = beta[(u - 3) as usize];
        let e: u32 = u_max - u;
        let weight: u64 = 1u64 << e;
        proof {
            assert(beta@.take(u - 2).drop_last() =~= beta@.take(u - 3));
            lemma_u64_pow2_no_overflow(e as nat);
            lemma_u64_shl_is_mul(1, e as u64);
            hashing::lemma_pow2_monotonic(e as nat, 62);
            lemma2_to64_rest();
            assert(weight == pow2(e as nat));
            assert(0 <= b * weight <= 0x4000_0000_0000_0000_0000_0000) by (nonlinear_arith)
                requires
                    0 <= b <= 0x1_0000_0000,
                    0 <= weight <= 0x4000_0000_0000_0000,
            ;
        }
        let term: u128 = b as u128 * weight as u128;
        assert(term == b * weight);
        sigma_1 = sigma_1 + term;
        u = u + 1;
    }
    Root::Positive { u_min, u_max, sigma_0, sigma_1 }
}

} // verus!
