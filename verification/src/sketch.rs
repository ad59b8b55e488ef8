//! The sketch itself, for either register storage.

use vstd::arithmetic::power2::*;
use vstd::bits::*;
use vstd::prelude::*;
use vstd::std_specs::bits::*;

use crate::algebra;
use crate::batch;
use crate::bytes;
use crate::codec;
use crate::error::DeserializeError;
use crate::error::MergeError;
use crate::hashing;
use crate::likelihood;
use crate::likelihood::Likelihood;
use crate::register;
use crate::state;
use crate::state::SketchView;
use crate::storage::RegisterArray;
use crate::tokens;
use crate::MAX_P;
use crate::MIN_P;

verus! {

/// Where a sketch keeps what it has seen.
#[derive(Debug)]
pub enum Storage<R> {
    /// Sorted list of distinct hash tokens.
    Sparse(Vec<u32>),
    /// One register per index.
    Dense(R),
}

/// A sketch over the register storage `R`.
#[derive(Debug)]
pub struct Sketch<R> {
    /// Precision: there are `2^p` registers.
    p: u32,
    storage: Storage<R>,
    /// Probability, scaled by `2^64`, that the next hash changes a register.
    mu: i128,
    /// Whether `mu` is out of date.
    martingale_invalid: bool,
}

/// A sparse sketch has at most as many tokens as there are registers.
proof fn lemma_break_even_bound(variant: state::Variant, p: u32)
    requires
        p <= 26,
        variant.pair_bytes <= 8,
    ensures
        variant.break_even(p) <= pow2(p as nat) <= 0x400_0000,
{
    hashing::lemma_one_shl(p);
    let m = pow2(p as nat) as int;
    let b = variant.pair_bytes as int;
    assert(m * b <= m * 8) by (nonlinear_arith)
        requires
            0 <= b <= 8,
            m >= 0,
    ;
}

/// Insert one hash into dense registers; the result is the value of the register
/// that the hash selects, before and after.
fn insert_hash<R: RegisterArray>(registers: &mut R, hash: u64, p: u32) -> (res: (u32, u32))
    requires
        p <= MAX_P,
        old(registers).words().len() == pow2(p as nat),
    ensures
        final(registers).words() == state::absorb_hashes(
            old(registers).words(),
            set![hash],
            p,
            R::variant().d,
        ),
        res.0 == old(registers).words()[hashing::register_index(hash, p)],
        res.1 == final(registers).words()[hashing::register_index(hash, p)],
        0 <= hashing::register_index(hash, p) < pow2(p as nat),
        final(registers).words() == old(registers).words().update(
            hashing::register_index(hash, p),
            res.1,
        ),
{
    let (i, k) = hashing::hash_to_register_k(hash, p);
    proof {
        R::variant_bounds();
        algebra::lemma_value_fits(R::variant().d);
        algebra::lemma_absorb_one(registers.words(), hash, p, R::variant().d);
        registers.words_fit();
    }
    let ghost before = registers.words();
    let r: u32 = registers.read(i);
    let new_r: u32 = register::apply_insert(r, k, R::d());
    if new_r != r {
        proof {
            assert(register::top(before[i as int], R::variant().d) < 256);
            assert(set![k as int].contains(register::top(new_r, R::variant().d)) ==> register::top(
                new_r,
                R::variant().d,
            ) == k);
        }
        registers.write(i, new_r);
    } else {
        assert(before.update(i as int, new_r) =~= before);
    }
    (r, new_r)
}

/// Insert the hashes that stand for `list`.
fn insert_tokens<R: RegisterArray>(registers: &mut R, list: &Vec<u32>, p: u32)
    requires
        p <= MAX_P,
        old(registers).words().len() == pow2(p as nat),
    ensures
        final(registers).words() == state::absorb_hashes(
            old(registers).words(),
            state::token_hashes(list@.to_set()),
            p,
            R::variant().d,
        ),
{
    let ghost before = registers.words();
    let ghost d = R::variant().d;
    proof {
        R::variant_bounds();
        assert(list@.take(0).to_set() =~= Set::empty());
        assert(state::token_hashes(Set::empty()) =~= Set::empty());
        algebra::lemma_absorb_nothing(before, p, d);
    }
    let mut i: usize = 0;
    while i < list.len()
        invariant
            i <= list@.len(),
            p <= MAX_P,
            1 <= d <= 24,
            d == R::variant().d,
            before.len() == pow2(p as nat),
            registers.words().len() == before.len(),
            registers.words() == state::absorb_hashes(
                before,
                state::token_hashes(list@.take(i as int).to_set()),
                p,
                d,
            ),
        decreases list@.len() - i,
    {
        let token: u32 = list[i];
        let hash: u64 = hashing::token_to_hash(token);
        proof {
            let seen = list@.take(i as int);
            assert(list@.take(i + 1) =~= seen.push(token));
            seen.lemma_push_to_set_commute(token);
            algebra::lemma_token_hashes_insert(seen.to_set(), token);
            algebra::lemma_absorb_union(
                before,
                state::token_hashes(seen.to_set()),
                set![hash],
                p,
                d,
            );
        }
        let _ = insert_hash(registers, hash, p);
        i = i + 1;
    }
    assert(list@.take(i as int) =~= list@);
}

/// Merge `others` into `registers`, register by register.
fn merge_all<R: RegisterArray>(registers: &mut R, others: &R, p: u32)
    requires
        p <= MAX_P,
        old(registers).words().len() == pow2(p as nat),
        others.words().len() == pow2(p as nat),
    ensures
        final(registers).words() == state::merge_registers(
            old(registers).words(),
            others.words(),
            R::variant().d,
        ),
{
    let ghost before = registers.words();
    let d: u32 = R::d();
    proof {
        R::variant_bounds();
        hashing::lemma_one_shl(p);
        registers.words_fit();
        others.words_fit();
    }
    let m: usize = 1usize << p;
    let mut i: usize = 0;
    while i < m
        invariant
            i <= m,
            m == pow2(p as nat),
            1 <= d <= 24,
            d == R::variant().d,
            before.len() == m,
            registers.words().len() == m,
            others.words().len() == m,
            forall|j: int| 0 <= j < m ==> register::top(#[trigger] before[j], d) < 256,
            forall|j: int| 0 <= j < m ==> register::top(#[trigger] others.words()[j], d) < 256,
            forall|j: int|
                0 <= j < i ==> #[trigger] registers.words()[j] == register::merged(
                    before[j],
                    others.words()[j],
                    d,
                ),
            forall|j: int| i <= j < m ==> #[trigger] registers.words()[j] == before[j],
        decreases m - i,
    {
        let r: u32 = registers.read(i);
        let merged: u32 = register::merge_register(r, others.read(i), d);
        if merged != r {
            registers.write(i, merged);
        }
        i = i + 1;
    }
    assert(registers.words() =~= state::merge_registers(before, others.words(), d));
}

/// Inserting the hash of one more token leads from one settled sketch to the
/// next.
proof fn lemma_settled_step(p: u32, seen: Set<u32>, token: u32, variant: state::Variant)
    requires
        p <= MAX_P,
        1 <= variant.d <= 24,
        seen.finite(),
    ensures
        SketchView::settled(
            p,
            state::hash_tokens(state::token_hashes(seen.insert(token))),
            variant,
        ) == SketchView::settled(
            p,
            state::hash_tokens(state::token_hashes(seen)),
            variant,
        ).with_hash(hashing::hash_of(token), variant),
{
    let hash = hashing::hash_of(token);
    let base = state::hash_tokens(state::token_hashes(seen));
    let added = hashing::token_of(hash);
    algebra::lemma_retokenized_insert(seen, token);
    algebra::lemma_retokenized_finite(seen);
    hashing::lemma_retokenize(token);
    if base.contains(added) {
        assert(base.insert(added) =~= base);
    }
    algebra::lemma_token_hashes_insert(base, added);
    algebra::lemma_absorb_union(
        state::empty_registers(p),
        state::token_hashes(base),
        set![hash],
        p,
        variant.d,
    );
}

/// How much a cut-off update value grows for the folded index bits `j`.
fn growth(p: u32, new_p: u32, j: u64) -> (s: u32)
    requires
        new_p <= p <= MAX_P,
        j < pow2((p - new_p) as nat),
    ensures
        s == state::cut_value_growth(p, new_p, j as nat),
        s <= 104,
{
    proof {
        state::lemma_growth_bounds(p, new_p, j as nat);
    }
    (p - new_p - (64 - j.leading_zeros())) * 4
}

/// Whether all registers can be brought to the precision `new_p`.
fn all_rebasable<R: RegisterArray>(registers: &R, p: u32, new_p: u32) -> (res: bool)
    requires
        MIN_P <= new_p < p <= MAX_P,
        registers.words().len() == pow2(p as nat),
    ensures
        res == state::reducible(registers.words(), p, new_p, R::variant().d),
{
    let d: u32 = R::d();
    proof {
        R::variant_bounds();
        hashing::lemma_one_shl(new_p);
        hashing::lemma_one_shl((p - new_p) as u32);
    }
    let m_new: usize = 1usize << new_p;
    let folds: u64 = 1u64 << (p - new_p);
    let a: u32 = (62 - p) * 4 + 1;
    let mut i: usize = 0;
    while i < m_new
        invariant
            i <= m_new,
            MIN_P <= new_p < p <= MAX_P,
            m_new == pow2(new_p as nat) <= 0x400_0000,
            folds == pow2((p - new_p) as nat),
            registers.words().len() == pow2(p as nat),
            1 <= d <= 24,
            d == R::variant().d,
            a == state::first_cut_value(p),
            forall|x: int, j: nat|
                0 <= x < i && j < folds ==> register::rebasable(
                    #[trigger] registers.words()[x + pow2(new_p as nat) * j],
                    d,
                    a as int,
                    state::cut_value_growth(p, new_p, j),
                ),
        decreases m_new - i,
    {
        let mut j: u64 = 0;
        while j < folds
            invariant
                j <= folds,
                i < m_new,
                MIN_P <= new_p < p <= MAX_P,
                m_new == pow2(new_p as nat) <= 0x400_0000,
                folds == pow2((p - new_p) as nat),
                registers.words().len() == pow2(p as nat),
                1 <= d <= 24,
                d == R::variant().d,
                a == state::first_cut_value(p),
                forall|k: nat|
                    k < j ==> register::rebasable(
                        #[trigger] registers.words()[i + pow2(new_p as nat) * k],
                        d,
                        a as int,
                        state::cut_value_growth(p, new_p, k),
                    ),
            decreases folds - j,
        {
            let s: u32 = growth(p, new_p, j);
            let r: u32 = read_folded(registers, p, new_p, i, j);
            let u: u32 = r >> d;
            if u >= a && s > 0 && (u > d + a || u + s > u32::MAX >> d) {
                assert(!register::rebasable(
                    registers.words()[i + pow2(new_p as nat) * (j as nat)],
                    d,
                    a as int,
                    state::cut_value_growth(p, new_p, j as nat),
                ));
                return false;
            }
            j = j + 1;
        }
        i = i + 1;
    }
    true
}

/// Register `i + 2^new_p * j`.
fn read_folded<R: RegisterArray>(registers: &R, p: u32, new_p: u32, i: usize, j: u64) -> (r: u32)
    requires
        MIN_P <= new_p <= p <= MAX_P,
        registers.words().len() == pow2(p as nat),
        i < pow2(new_p as nat),
        j < pow2((p - new_p) as nat),
    ensures
        r == registers.words()[i + pow2(new_p as nat) * (j as nat)],
        register::top(r, R::variant().d) < 256,
{
    proof {
        hashing::lemma_one_shl(new_p);
        hashing::lemma_one_shl(p);
        state::lemma_growth_bounds(p, new_p, j as nat);
        state::lemma_fold_in_bounds(p, new_p, i as int, j as nat);
        state::lemma_fold_in_bounds(p, new_p, 0, j as nat);
        registers.words_fit();
    }
    registers.read(i + (1usize << new_p) * (j as usize))
}

/// A register word cut to the bits that its storage has room for.
fn trim(r: u32, d: u32) -> (res: u32)
    requires
        1 <= d <= 24,
    ensures
        res == state::trimmed(r, d),
        register::top(res, d) < 256,
{
    let res: u32 = if d < 24 {
        assert(1u32 << (d + 8) >= 1) by (bit_vector)
            requires
                d < 24,
        ;
        proof {
            lemma_u32_low_bits_mask_is_mod(r, (d + 8) as nat);
            lemma_u32_pow2_no_overflow((d + 8) as nat);
            lemma_u32_shl_is_mul(1, (d + 8) as u32);
        }
        r & ((1u32 << (d + 8)) - 1)
    } else {
        proof {
            lemma2_to64();
            vstd::arithmetic::div_mod::lemma_small_mod(r as nat, pow2(32));
        }
        r
    };
    proof {
        if d < 24 {
            assert((r & ((((1u32 << ((d + 8) as u32)) - 1) as u32))) >> d < 256) by (bit_vector)
                requires
                    1 <= d < 24,
            ;
        } else {
            assert(r >> 24 < 256) by (bit_vector);
        }
    }
    res
}

/// Register `i` at the precision `new_p`.
fn gather<R: RegisterArray>(registers: &R, p: u32, new_p: u32, i: usize) -> (acc: u32)
    requires
        MIN_P <= new_p < p <= MAX_P,
        registers.words().len() == pow2(p as nat),
        i < pow2(new_p as nat),
        state::reducible(registers.words(), p, new_p, R::variant().d),
    ensures
        acc == state::gathered(
            registers.words(),
            p,
            new_p,
            R::variant().d,
            i as int,
            pow2((p - new_p) as nat),
        ),
{
    let d: u32 = R::d();
    proof {
        R::variant_bounds();
        hashing::lemma_one_shl((p - new_p) as u32);
    }
    let folds: u64 = 1u64 << (p - new_p);
    let a: u32 = (62 - p) * 4 + 1;
    let mut acc: u32 = 0;
    let mut j: u64 = 0;
    while j < folds
        invariant
            j <= folds,
            MIN_P <= new_p < p <= MAX_P,
            folds == pow2((p - new_p) as nat),
            registers.words().len() == pow2(p as nat),
            i < pow2(new_p as nat),
            state::reducible(registers.words(), p, new_p, d),
            1 <= d <= 24,
            d == R::variant().d,
            a == state::first_cut_value(p),
            acc == state::gathered(registers.words(), p, new_p, d, i as int, j as nat),
        decreases folds - j,
    {
        let s: u32 = growth(p, new_p, j);
        let r: u32 = read_folded(registers, p, new_p, i, j);
        acc = register::merge_register(acc, register::rebase_register(r, d, a, s), d);
        j = j + 1;
        assert((j - 1) as nat + 1 == j as nat);
    }
    acc
}

/// The registers at the precision `new_p`.
fn reduce_all<R: RegisterArray>(registers: &R, p: u32, new_p: u32) -> (out: R)
    requires
        MIN_P <= new_p < p <= MAX_P,
        registers.words().len() == pow2(p as nat),
        state::reducible(registers.words(), p, new_p, R::variant().d),
    ensures
        out.words() == state::reduce_registers(registers.words(), p, new_p, R::variant().d),
{
    let mut out = R::zeroed(new_p);
    let d: u32 = R::d();
    proof {
        R::variant_bounds();
        hashing::lemma_one_shl(new_p);
    }
    let ghost want = state::reduce_registers(registers.words(), p, new_p, d);
    let m_new: usize = 1usize << new_p;
    let mut i: usize = 0;
    while i < m_new
        invariant
            i <= m_new,
            MIN_P <= new_p < p <= MAX_P,
            m_new == pow2(new_p as nat),
            registers.words().len() == pow2(p as nat),
            state::reducible(registers.words(), p, new_p, d),
            1 <= d <= 24,
            d == R::variant().d,
            want == state::reduce_registers(registers.words(), p, new_p, d),
            out.words().len() == m_new,
            forall|x: int| 0 <= x < i ==> #[trigger] out.words()[x] == want[x],
        decreases m_new - i,
    {
        let acc: u32 = gather(registers, p, new_p, i);
        out.write(i, trim(acc, d));
        i = i + 1;
    }
    assert(out.words() =~= want);
    out
}

/// Register `i` of the sketch that holds the tokens in `list`.
fn register_from_tokens<R: RegisterArray>(list: &Vec<u32>, p: u32, i: usize) -> (r: u32)
    requires
        p <= MAX_P,
        i < pow2(p as nat),
    ensures
        r == state::registers_of(state::token_hashes(list@.to_set()), p, R::variant().d)[i as int],
{
    let d: u32 = R::d();
    let ghost empty = state::empty_registers(p);
    proof {
        R::variant_bounds();
        algebra::lemma_value_fits(d);
        assert(list@.take(0).to_set() =~= Set::empty());
        assert(state::token_hashes(Set::empty()) =~= Set::empty());
        algebra::lemma_absorb_nothing(empty, p, d);
    }
    let mut r: u32 = 0;
    let mut n: usize = 0;
    while n < list.len()
        invariant
            n <= list@.len(),
            p <= MAX_P,
            i < pow2(p as nat),
            1 <= d <= 24,
            255 <= u32::MAX >> d,
            empty == state::empty_registers(p),
            r == state::absorb_hashes(
                empty,
                state::token_hashes(list@.take(n as int).to_set()),
                p,
                d,
            )[i as int],
        decreases list@.len() - n,
    {
        let token: u32 = list[n];
        let hash: u64 = hashing::token_to_hash(token);
        let (index, k) = hashing::hash_to_register_k(hash, p);
        proof {
            let seen = list@.take(n as int);
            assert(list@.take(n + 1) =~= seen.push(token));
            seen.lemma_push_to_set_commute(token);
            algebra::lemma_token_hashes_insert(seen.to_set(), token);
            let hs = state::token_hashes(seen.to_set());
            algebra::lemma_absorb_union(empty, hs, set![hash], p, d);
            algebra::lemma_absorb_one(state::absorb_hashes(empty, hs, p, d), hash, p, d);
        }
        if index == i {
            r = register::apply_insert(r, k, d);
        }
        n = n + 1;
    }
    assert(list@.take(n as int) =~= list@);
    r
}

/// All register values.
fn values<R: RegisterArray>(registers: &R, p: u32) -> (res: Vec<u32>)
    requires
        p <= MAX_P,
        registers.words().len() == pow2(p as nat),
    ensures
        res@ == registers.words(),
{
    proof {
        hashing::lemma_one_shl(p);
    }
    let m: usize = 1usize << p;
    let mut res: Vec<u32> = Vec::new();
    let mut i: usize = 0;
    while i < m
        invariant
            i <= m,
            m == registers.words().len(),
            res@ == registers.words().take(i as int),
        decreases m - i,
    {
        res.push(registers.read(i));
        assert(res@ =~= registers.words().take(i + 1));
        i = i + 1;
    }
    assert(res@ =~= registers.words());
    res
}

/// The values that one more update brings to a register.
proof fn lemma_update_values_push(updates: Seq<(u32, u32)>, update: (u32, u32), i: int)
    ensures
        batch::update_values(updates.push(update), i) == if update.0 == i {
            batch::update_values(updates, i).union(set![update.1 as int])
        } else {
            batch::update_values(updates, i)
        },
{
    let more = updates.push(update);
    let got = batch::update_values(more, i);
    let base = batch::update_values(updates, i);
    let want = if update.0 == i {
        base.union(set![update.1 as int])
    } else {
        base
    };
    assert forall|v: int| got.contains(v) == want.contains(v) by {
        if got.contains(v) {
            let n = choose|n: int|
                0 <= n < more.len() && (#[trigger] more[n]).0 == i && more[n].1 == v;
            if n < updates.len() {
                assert(updates[n].0 == i && updates[n].1 == v);
            }
        }
        if base.contains(v) {
            let n = choose|n: int|
                0 <= n < updates.len() && (#[trigger] updates[n]).0 == i && updates[n].1 == v;
            assert(more[n].0 == i && more[n].1 == v);
        }
        assert(more[updates.len() as int] == update);
    }
    assert(got =~= want);
}

/// Apply a list of updates, reading and writing a register once for each run of
/// updates that go to it.
fn insert_updates<R: RegisterArray>(registers: &mut R, iks: &Vec<(u32, u32)>, p: u32)
    requires
        p <= MAX_P,
        old(registers).words().len() == pow2(p as nat),
        forall|n: int|
            0 <= n < iks@.len() ==> (#[trigger] iks@[n]).0 < pow2(p as nat) && iks@[n].1 < 256,
    ensures
        final(registers).words().len() == old(registers).words().len(),
        forall|i: int|
            0 <= i < old(registers).words().len() ==> register::absorbs(
                #[trigger] final(registers).words()[i],
                old(registers).words()[i],
                R::variant().d,
                batch::update_values(iks@, i),
            ),
{
    let ghost before = registers.words();
    let ghost m = before.len();
    let d: u32 = R::d();
    proof {
        R::variant_bounds();
        algebra::lemma_value_fits(d);
        hashing::lemma_one_shl(p);
        registers.words_fit();
        assert forall|i: int| 0 <= i < m implies register::absorbs(
            #[trigger] registers.words()[i],
            before[i],
            d,
            batch::update_values(iks@.take(0), i),
        ) by {
            assert(batch::update_values(iks@.take(0), i) =~= Set::empty());
        }
    }
    let mut n: usize = 0;
    while n < iks.len()
        invariant
            n <= iks@.len(),
            m == before.len() <= 0x400_0000,
            1 <= d <= 24,
            d == R::variant().d,
            255 <= u32::MAX >> d,
            registers.words().len() == m,
            forall|x: int| 0 <= x < iks@.len() ==> (#[trigger] iks@[x]).0 < m && iks@[x].1 < 256,
            forall|i: int| 0 <= i < m ==> register::top(#[trigger] before[i], d) < 256,
            forall|i: int|
                0 <= i < m ==> register::absorbs(
                    #[trigger] registers.words()[i],
                    before[i],
                    d,
                    batch::update_values(iks@.take(n as int), i),
                ),
        decreases iks@.len() - n,
    {
        let ghost n0 = n;
        let i: usize = iks[n].0 as usize;
        let r_start: u32 = registers.read(i);
        let mut r: u32 = r_start;
        while n < iks.len() && iks[n].0 as usize == i
            invariant
                n0 <= n <= iks@.len(),
                n == n0 ==> n < iks@.len() && iks@[n as int].0 == i,
                i < m == before.len(),
                1 <= d <= 24,
                255 <= u32::MAX >> d,
                registers.words().len() == m,
                forall|x: int|
                    0 <= x < iks@.len() ==> (#[trigger] iks@[x]).0 < m && iks@[x].1 < 256,
                forall|x: int|
                    0 <= x < m && x != i ==> register::absorbs(
                        #[trigger] registers.words()[x],
                        before[x],
                        d,
                        batch::update_values(iks@.take(n as int), x),
                    ),
                register::absorbs(
                    r,
                    before[i as int],
                    d,
                    batch::update_values(iks@.take(n as int), i as int),
                ),
            decreases iks@.len() - n,
        {
            let k: u32 = iks[n].1;
            let new_r: u32 = register::apply_insert(r, k, d);
            proof {
                let seen = iks@.take(n as int);
                assert(iks@.take(n + 1) =~= seen.push(iks@[n as int]));
                assert forall|x: int| 0 <= x < m && x != i implies register::absorbs(
                    #[trigger] registers.words()[x],
                    before[x],
                    d,
                    batch::update_values(iks@.take(n + 1), x),
                ) by {
                    lemma_update_values_push(seen, iks@[n as int], x);
                }
                lemma_update_values_push(seen, iks@[n as int], i as int);
                register::lemma_absorb_compose(
                    new_r,
                    r,
                    before[i as int],
                    d,
                    batch::update_values(seen, i as int),
                    set![k as int],
                );
            }
            r = new_r;
            n = n + 1;
        }
        if r != r_start {
            proof {
                lemma_absorbed_top(r, before[i as int], d, iks@.take(n as int), i as int);
            }
            registers.write(i, r);
        }
    }
    assert(iks@.take(n as int) =~= iks@);
}

/// The largest value of a register after updates below 256 is below 256.
proof fn lemma_absorbed_top(r: u32, before: u32, d: u32, updates: Seq<(u32, u32)>, i: int)
    requires
        register::absorbs(r, before, d, batch::update_values(updates, i)),
        register::top(before, d) < 256,
        forall|x: int| 0 <= x < updates.len() ==> (#[trigger] updates[x]).1 < 256,
    ensures
        register::top(r, d) < 256,
{
    if register::top(r, d) != register::top(before, d) {
        assert(batch::update_values(updates, i).contains(register::top(r, d)));
    }
}

impl<R: RegisterArray> Sketch<R> {
    /// The storage is laid out as the precision says, and the probability of a
    /// change is up to date wherever the martingale estimator relies on it.
    pub closed spec fn shaped(&self) -> bool {
        &&& MIN_P <= self.p <= MAX_P
        &&& match self.storage {
            Storage::Sparse(list) => state::strictly_increasing(list@) && self.martingale_invalid,
            Storage::Dense(registers) => registers.words().len() == pow2(self.p as nat),
        }
        &&& !self.martingale_invalid ==> self.mu == likelihood::total_change_weight(
            self.registers(),
            self.p,
            R::variant().d,
        )
    }

    /// What holds of every sketch between two operations.
    pub closed spec fn wf(&self) -> bool {
        &&& self.shaped()
        &&& self.storage matches Storage::Sparse(list) ==> list@.len() <= u32::MAX
    }

    spec fn registers(&self) -> Seq<u32> {
        match self.storage {
            Storage::Sparse(list) => state::registers_of(
                state::token_hashes(list@.to_set()),
                self.p,
                R::variant().d,
            ),
            Storage::Dense(registers) => registers.words(),
        }
    }

    /// What the sketch stands for.
    pub closed spec fn model(&self) -> SketchView {
        SketchView {
            p: self.p,
            tokens: match self.storage {
                Storage::Sparse(list) => Some(list@.to_set()),
                Storage::Dense(_) => None,
            },
            registers: self.registers(),
            martingale: !self.martingale_invalid,
        }
    }

    /// What a sketch stands for is valid.
    pub proof fn lemma_valid(&self)
        requires
            self.wf(),
        ensures
            self.model().valid(R::variant()),
            self.shaped(),
    {
        let p = self.p;
        let d = R::variant().d;
        R::variant_bounds();
        match self.storage {
            Storage::Sparse(list) => {
                tokens::lemma_increasing_len(list@);
                let hashes = state::token_hashes(list@.to_set());
                assert forall|i: int| 0 <= i < self.registers().len() implies register::top(
                    #[trigger] self.registers()[i],
                    d,
                ) < 256 by {
                    let r = self.registers()[i];
                    algebra::lemma_absorb_hashes(state::empty_registers(p), hashes, p, d, i);
                    algebra::lemma_values_in_range(hashes, p, i);
                    likelihood::lemma_empty_weight(p, d);
                    assert(register::top(r, d) == 0 || state::values_at(hashes, p, i).contains(
                        register::top(r, d),
                    ));
                }
            },
            Storage::Dense(registers) => {
                registers.words_fit();
            },
        }
    }

    /// An empty sparse sketch.
    pub fn new(p: u32) -> (res: Self)
        requires
            MIN_P <= p <= MAX_P,
        ensures
            res.wf(),
            res.model() == SketchView::sparse(p, Set::empty(), R::variant()),
    {
        let list: Vec<u32> = Vec::new();
        assert(list@.to_set() =~= Set::empty());
        Sketch { p, storage: Storage::Sparse(list), mu: 0, martingale_invalid: true }
    }

    /// An empty dense sketch.
    pub fn new_dense(p: u32) -> (res: Self)
        requires
            MIN_P <= p <= MAX_P,
        ensures
            res.wf(),
            res.model() == SketchView::dense(p, state::empty_registers(p), true),
    {
        let registers = R::zeroed(p);
        proof {
            R::variant_bounds();
            likelihood::lemma_empty_total(registers.words(), p, R::variant().d);
            lemma_pow2_adds(p as nat, (64 - p) as nat);
            lemma2_to64();
        }
        Sketch {
            p,
            storage: Storage::Dense(registers),
            mu: 0x1_0000_0000_0000_0000,
            martingale_invalid: false,
        }
    }

    /// Precision.
    pub fn precision(&self) -> (p: u32)
        ensures
            p == self.model().p,
    {
        self.p
    }

    /// Whether the sketch is sparse.
    pub fn is_sparse(&self) -> (res: bool)
        ensures
            res == (self.model().tokens is Some),
    {
        match &self.storage {
            Storage::Sparse(_) => true,
            Storage::Dense(_) => false,
        }
    }

    /// Change to dense storage.
    pub fn densify(&mut self)
        requires
            old(self).shaped(),
        ensures
            final(self).wf(),
            final(self).model() == old(self).model().densified(),
    {
        let p: u32 = self.p;
        let registers = match &self.storage {
            Storage::Dense(_) => {
                return;
            },
            Storage::Sparse(list) => {
                let mut registers = R::zeroed(p);
                insert_tokens(&mut registers, list, p);
                registers
            },
        };
        self.storage = Storage::Dense(registers);
        self.martingale_invalid = true;
    }

    /// Insert one hash.
    pub fn add_hash(&mut self, hash: u64)
        requires
            old(self).wf(),
        ensures
            final(self).wf(),
            final(self).model() == old(self).model().with_hash(hash, R::variant()),
    {
        let p: u32 = self.p;
        proof {
            R::variant_bounds();
            lemma_break_even_bound(R::variant(), p);
        }
        let mut promote: bool = false;
        let mut change: (u32, u32) = (0, 0);
        match &mut self.storage {
            Storage::Sparse(list) => {
                let token: u32 = hashing::hash_to_token(hash);
                let added: bool = tokens::insert_token(list, token);
                proof {
                    tokens::lemma_increasing_len(list@);
                }
                promote = added && list.len() > R::sparse_capacity(p);
            },
            Storage::Dense(registers) => {
                change = insert_hash(registers, hash, p);
            },
        }
        if promote {
            self.densify();
        } else if change.0 != change.1 && !self.martingale_invalid {
            proof {
                let before = old(self).registers();
                let i = hashing::register_index(hash, p);
                likelihood::lemma_total_bounds(before, p, R::variant().d);
                likelihood::lemma_total_update(before, i, change.1, p, R::variant().d);
                hashing::lemma_one_shl(p);
            }
            self.mu = self.mu - likelihood::h(change.0, p, R::d()) + likelihood::h(
                change.1,
                p,
                R::d(),
            );
        } else {
            proof {
                if old(self).storage is Dense && change.0 == change.1 {
                    let i = hashing::register_index(hash, p);
                    assert(self.registers() =~= old(self).registers());
                }
            }
        }
    }

    /// Insert a batch of hashes.
    pub fn add_hashes(&mut self, hashes: &[u64])
        requires
            old(self).wf(),
        ensures
            final(self).wf(),
            final(self).model() == old(self).model().with_hashes(hashes@.to_set(), R::variant()),
    {
        let p: u32 = self.p;
        proof {
            R::variant_bounds();
            lemma_break_even_bound(R::variant(), p);
        }
        match &self.storage {
            Storage::Sparse(list) => {
                let all = tokens::append_tokens(list, hashes);
                let merged = tokens::sorted_distinct(&all);
                proof {
                    let toks = hashes@.map_values(|hash: u64| hashing::token_of(hash));
                    vstd::seq_lib::seq_to_set_distributes_over_add(list@, toks);
                    algebra::lemma_hash_tokens_list(hashes@);
                    tokens::lemma_increasing_len(merged@);
                }
                self.settle(merged);
            },
            Storage::Dense(_) => {
                self.insert_each(hashes);
            },
        }
    }

    /// Take over a token list, and go dense above the break-even point.
    fn settle(&mut self, list: Vec<u32>)
        requires
            old(self).shaped(),
            old(self).model().tokens is Some,
            state::strictly_increasing(list@),
        ensures
            final(self).wf(),
            final(self).model() == SketchView::settled(
                old(self).model().p,
                list@.to_set(),
                R::variant(),
            ),
    {
        proof {
            R::variant_bounds();
            lemma_break_even_bound(R::variant(), self.p);
            tokens::lemma_increasing_len(list@);
        }
        let promote: bool = list.len() > R::sparse_capacity(self.p);
        self.storage = Storage::Sparse(list);
        if promote {
            self.densify();
        }
    }

    /// Insert hashes one by one.
    fn insert_each(&mut self, hashes: &[u64])
        requires
            old(self).wf(),
            old(self).model().tokens is None,
        ensures
            final(self).wf(),
            final(self).model() == old(self).model().with_hashes(hashes@.to_set(), R::variant()),
    {
        let ghost start = self.model();
        let ghost d = R::variant().d;
        proof {
            R::variant_bounds();
            assert(hashes@.take(0).to_set() =~= Set::empty());
            algebra::lemma_absorb_nothing(start.registers, start.p, d);
        }
        let mut i: usize = 0;
        while i < hashes.len()
            invariant
                i <= hashes@.len(),
                self.wf(),
                start.p <= MAX_P,
                start.tokens is None,
                1 <= d <= 24,
                d == R::variant().d,
                self.model() == start.with_hashes(hashes@.take(i as int).to_set(), R::variant()),
            decreases hashes@.len() - i,
        {
            let hash: u64 = hashes[i];
            proof {
                let seen = hashes@.take(i as int);
                assert(hashes@.take(i + 1) =~= seen.push(hash));
                seen.lemma_push_to_set_commute(hash);
                assert(seen.to_set().insert(hash) =~= seen.to_set().union(set![hash]));
                algebra::lemma_absorb_union(
                    start.registers,
                    seen.to_set(),
                    set![hash],
                    start.p,
                    d,
                );
            }
            self.add_hash(hash);
            i = i + 1;
        }
        assert(hashes@.take(i as int) =~= hashes@);
    }

    /// Merge `other` into the sketch.
    pub fn merge(&mut self, other: &Self) -> (res: Result<(), MergeError>)
        requires
            old(self).wf(),
            other.wf(),
        ensures
            final(self).wf(),
            old(self).model().p == other.model().p ==> res == Ok::<(), MergeError>(())
                && final(self).model() == old(self).model().merge(other.model(), R::variant()),
            old(self).model().p != other.model().p ==> res == Err::<(), MergeError>(
                MergeError::PrecisionMismatch { lhs: old(self).model().p, rhs: other.model().p },
            ) && final(self).model() == old(self).model(),
    {
        if self.p != other.p {
            return Err(MergeError::PrecisionMismatch { lhs: self.p, rhs: other.p });
        }
        let p: u32 = self.p;
        let union: Option<Vec<u32>> = match (&self.storage, &other.storage) {
            (Storage::Sparse(list), Storage::Sparse(others)) => Some(
                tokens::union_tokens(list, others),
            ),
            _ => None,
        };
        match union {
            Some(list) => {
                self.settle(list);
            },
            None => {
                self.densify();
                match (&mut self.storage, &other.storage) {
                    (Storage::Dense(registers), Storage::Sparse(others)) => {
                        insert_tokens(registers, others, p);
                    },
                    (Storage::Dense(registers), Storage::Dense(others)) => {
                        merge_all(registers, others, p);
                    },
                    _ => {
                        assert(false);
                    },
                }
                self.martingale_invalid = true;
            },
        }
        Ok(())
    }

    /// Whether `reduce` accepts `new_p`.
    pub fn can_reduce(&self, new_p: u32) -> (res: bool)
        requires
            self.wf(),
            MIN_P <= new_p <= self.model().p,
        ensures
            res == self.model().can_reduce(new_p, R::variant()),
    {
        match &self.storage {
            Storage::Sparse(_) => true,
            Storage::Dense(registers) => new_p == self.p || all_rebasable(
                registers,
                self.p,
                new_p,
            ),
        }
    }

    /// The sketch at the precision `new_p`.
    pub fn reduce(&self, new_p: u32) -> (res: Self)
        requires
            self.wf(),
            MIN_P <= new_p <= self.model().p,
            self.model().can_reduce(new_p, R::variant()),
        ensures
            res.wf(),
            res.model() == self.model().reduce(new_p, R::variant()),
    {
        match &self.storage {
            Storage::Sparse(list) => Self::from_tokens(new_p, list),
            Storage::Dense(registers) => {
                let reduced = if new_p == self.p {
                    registers.duplicate()
                } else {
                    reduce_all(registers, self.p, new_p)
                };
                Sketch {
                    p: new_p,
                    storage: Storage::Dense(reduced),
                    mu: 0,
                    martingale_invalid: true,
                }
            },
        }
    }

    /// Insert the hashes that stand for `list` into an empty sketch.
    fn from_tokens(p: u32, list: &Vec<u32>) -> (out: Self)
        requires
            MIN_P <= p <= MAX_P,
        ensures
            out.wf(),
            out.model() == SketchView::settled(
                p,
                state::hash_tokens(state::token_hashes(list@.to_set())),
                R::variant(),
            ),
    {
        let mut out: Self = Self::new(p);
        let ghost d = R::variant().d;
        proof {
            R::variant_bounds();
            assert(list@.take(0).to_set() =~= Set::empty());
            assert(state::token_hashes(Set::empty()) =~= Set::empty());
            assert(state::hash_tokens(Set::empty()) =~= Set::empty());
        }
        let mut i: usize = 0;
        while i < list.len()
            invariant
                i <= list@.len(),
                MIN_P <= p <= MAX_P,
                out.wf(),
                1 <= d <= 24,
                d == R::variant().d,
                out.model() == SketchView::settled(
                    p,
                    state::hash_tokens(state::token_hashes(list@.take(i as int).to_set())),
                    R::variant(),
                ),
            decreases list@.len() - i,
        {
            let token: u32 = list[i];
            let hash: u64 = hashing::token_to_hash(token);
            proof {
                let seen = list@.take(i as int);
                assert(list@.take(i + 1) =~= seen.push(token));
                seen.lemma_push_to_set_commute(token);
                vstd::seq_lib::seq_to_set_is_finite(seen);
                lemma_settled_step(p, seen.to_set(), token, R::variant());
            }
            out.add_hash(hash);
            i = i + 1;
        }
        assert(list@.take(i as int) =~= list@);
        out
    }

    /// Forget everything.
    pub fn clear(&mut self)
        requires
            old(self).wf(),
        ensures
            final(self).wf(),
            final(self).model() == SketchView::sparse(old(self).model().p, Set::empty(), R::variant()),
    {
        *self = Self::new(self.p);
    }

    /// Value of register `i`.
    pub fn get_register(&self, i: usize) -> (r: u32)
        requires
            self.wf(),
            i < pow2(self.model().p as nat),
        ensures
            r == self.model().registers[i as int],
    {
        match &self.storage {
            Storage::Sparse(list) => register_from_tokens::<R>(list, self.p, i),
            Storage::Dense(registers) => registers.read(i),
        }
    }

    /// All register values.
    pub fn snapshot(&self) -> (res: Vec<u32>)
        requires
            self.wf(),
        ensures
            res@ == self.model().registers,
    {
        match &self.storage {
            Storage::Sparse(list) => {
                let mut registers = R::zeroed(self.p);
                insert_tokens(&mut registers, list, self.p);
                values(&registers, self.p)
            },
            Storage::Dense(registers) => values(registers, self.p),
        }
    }

    /// A copy.
    pub fn duplicate(&self) -> (res: Self)
        requires
            self.wf(),
        ensures
            res.wf(),
            res.model() == self.model(),
    {
        let storage = match &self.storage {
            Storage::Sparse(list) => {
                let copy = list.clone();
                assert(copy@ =~= list@);
                Storage::Sparse(copy)
            },
            Storage::Dense(registers) => Storage::Dense(registers.duplicate()),
        };
        Sketch { p: self.p, storage, mu: self.mu, martingale_invalid: self.martingale_invalid }
    }

    /// Insert a batch of hashes register by register, in dense storage.
    pub fn add_hashes_sorted(&mut self, hashes: &[u64])
        requires
            old(self).wf(),
        ensures
            final(self).wf(),
            hashes@.len() == 0 ==> final(self).model() == old(self).model(),
            hashes@.len() > 0 ==> final(self).model() == old(self).model().with_hashes_dense(
                hashes@.to_set(),
                R::variant(),
            ),
    {
        if hashes.len() == 0 {
            return;
        }
        self.densify();
        let p: u32 = self.p;
        proof {
            hashing::lemma_one_shl(p);
        }
        let mut iks: Vec<(u32, u32)> = Vec::new();
        batch::fill_iks(hashes, p, &mut iks);
        proof {
            assert(iks@ =~= batch::updates_of(hashes@, p));
            assert forall|n: int| 0 <= n < iks@.len() implies (#[trigger] iks@[n]).0 < pow2(
                p as nat,
            ) by {
                hashing::lemma_update_bounds(hashes@[n], p);
            }
        }
        batch::counting_sort_by_register(&mut iks, 1usize << p);
        proof {
            assert forall|n: int| 0 <= n < iks@.len() implies (#[trigger] iks@[n]).0 < pow2(
                p as nat,
            ) && iks@[n].1 < 256 by {
                let updates = batch::updates_of(hashes@, p);
                assert(iks@.contains(iks@[n]));
                batch::lemma_by_register_contains(updates, pow2(p as nat), iks@[n]);
                let x = choose|x: int| 0 <= x < updates.len() && updates[x] == iks@[n];
                hashing::lemma_update_bounds(hashes@[x], p);
            }
        }
        match &mut self.storage {
            Storage::Dense(registers) => {
                let ghost before = registers.words();
                insert_updates(registers, &iks, p);
                proof {
                    R::variant_bounds();
                    assert forall|i: int| 0 <= i < before.len() implies register::absorbs(
                        #[trigger] registers.words()[i],
                        before[i],
                        R::variant().d,
                        state::values_at(hashes@.to_set(), p, i),
                    ) by {
                        batch::lemma_sorted_update_values(hashes@, p, i);
                    }
                    algebra::lemma_absorbed_is(
                        registers.words(),
                        before,
                        hashes@.to_set(),
                        p,
                        R::variant().d,
                    );
                }
            },
            Storage::Sparse(_) => {
                assert(false);
            },
        }
        self.martingale_invalid = true;
    }

    /// The byte form.
    pub fn to_bytes(&self) -> (out: Vec<u8>)
        requires
            self.wf(),
        ensures
            out@ == codec::encoded::<R>(self.model()),
    {
        proof {
            R::variant_bounds();
        }
        let mut out: Vec<u8> = Vec::new();
        match &self.storage {
            Storage::Sparse(list) => {
                proof {
                    tokens::lemma_increasing_len(list@);
                    tokens::lemma_ascending(list@);
                }
                codec::push_header(&mut out, true, R::d(), self.p);
                let count: u32 = list.len() as u32;
                bytes::push_word(&mut out, count);
                bytes::push_words(&mut out, list);
                assert(out@ =~= codec::encoded::<R>(self.model()));
            },
            Storage::Dense(registers) => {
                proof {
                    lemma_pow2_unfold(self.p as nat);
                }
                codec::push_header(&mut out, false, R::d(), self.p);
                registers.append_to(&mut out);
                assert(out@ =~= codec::encoded::<R>(self.model()));
            },
        }
        out
    }

    /// The sketch with the given byte form.
    pub fn from_bytes(bytes: &[u8]) -> (res: Result<Self, DeserializeError>)
        ensures
            match res {
                Ok(sketch) => {
                    &&& codec::decode_error::<R>(bytes@) is None
                    &&& sketch.wf()
                    &&& sketch.model() == codec::decoded::<R>(bytes@)
                },
                Err(error) => codec::decode_error::<R>(bytes@) == Some(error),
            },
    {
        let (sparse, p) = match codec::parse_header(bytes, R::d()) {
            Ok(parsed) => parsed,
            Err(error) => {
                return Err(error);
            },
        };
        let storage: Storage<R> = if sparse {
            match codec::parse_tokens(bytes) {
                Ok(list) => Storage::Sparse(tokens::sorted_distinct(&list)),
                Err(error) => {
                    return Err(error);
                },
            }
        } else {
            match codec::parse_registers::<R>(bytes, p) {
                Ok(registers) => Storage::Dense(registers),
                Err(error) => {
                    return Err(error);
                },
            }
        };
        Ok(Sketch { p, storage, mu: 0, martingale_invalid: true })
    }

    /// A dense sketch with the given register values.
    pub fn from_registers(p: u32, words: &Vec<u32>) -> (res: Self)
        requires
            MIN_P <= p <= MAX_P,
            words@.len() == pow2(p as nat),
            forall|i: int|
                0 <= i < words@.len() ==> register::top(#[trigger] words@[i], R::variant().d) < 256,
        ensures
            res.wf(),
            res.model() == SketchView::dense(p, words@, false),
    {
        let mut registers = R::zeroed(p);
        let mut i: usize = 0;
        while i < words.len()
            invariant
                i <= words@.len(),
                registers.words().len() == words@.len(),
                forall|x: int|
                    0 <= x < words@.len() ==> register::top(#[trigger] words@[x], R::variant().d)
                        < 256,
                forall|x: int| 0 <= x < i ==> #[trigger] registers.words()[x] == words@[x],
            decreases words@.len() - i,
        {
            registers.write(i, words[i]);
            i = i + 1;
        }
        assert(registers.words() =~= words@);
        Sketch { p, storage: Storage::Dense(registers), mu: 0, martingale_invalid: true }
    }

    /// Whether nothing was inserted.
    pub fn is_empty(&self) -> (res: bool)
        requires
            self.wf(),
        ensures
            res == self.model().is_empty(),
    {
        match &self.storage {
            Storage::Sparse(list) => {
                proof {
                    if list@.len() == 0 {
                        assert(list@.to_set() =~= Set::empty());
                    } else {
                        assert(list@.to_set().contains(list@[0]));
                    }
                }
                list.len() == 0
            },
            Storage::Dense(registers) => {
                proof {
                    hashing::lemma_one_shl(self.p);
                }
                let m: usize = 1usize << self.p;
                let mut i: usize = 0;
                while i < m
                    invariant
                        i <= m == registers.words().len(),
                        forall|x: int| 0 <= x < i ==> registers.words()[x] == 0,
                        self.model().tokens is None,
                        self.model().registers == registers.words(),
                    decreases m - i,
                {
                    if registers.read(i) != 0 {
                        return false;
                    }
                    i = i + 1;
                }
                true
            },
        }
    }

    /// Whether two sketches have the same registers.
    pub fn same_registers(&self, other: &Self) -> (res: bool)
        requires
            self.wf(),
            other.wf(),
        ensures
            res == (self.model().p == other.model().p && self.model().registers
                == other.model().registers),
    {
        if self.p != other.p {
            return false;
        }
        let a = self.snapshot();
        let b = other.snapshot();
        proof {
            self.lemma_valid();
            other.lemma_valid();
        }
        let mut i: usize = 0;
        while i < a.len()
            invariant
                i <= a@.len() == b@.len(),
                self.model().registers == a@,
                other.model().registers == b@,
                forall|x: int| 0 <= x < i ==> a@[x] == b@[x],
            decreases a@.len() - i,
        {
            if a[i] != b[i] {
                return false;
            }
            i = i + 1;
        }
        assert(a@ =~= b@);
        true
    }

    /// In-memory size of the storage in bytes.
    pub fn register_bytes(&self) -> (n: usize)
        requires
            self.wf(),
        ensures
            self.model().tokens is None ==> 2 * n == pow2(self.model().p as nat)
                * R::variant().pair_bytes,
            self.model().tokens matches Some(tokens) ==> n >= 4 * tokens.len(),
    {
        match &self.storage {
            Storage::Sparse(list) => {
                proof {
                    tokens::lemma_increasing_len(list@);
                }
                tokens::allocated(list) * 4
            },
            Storage::Dense(_) => R::storage_bytes(self.p),
        }
    }

    /// Coefficients of the likelihood of the distinct count.
    pub fn likelihood(&self) -> (res: Likelihood)
        requires
            self.wf(),
        ensures
            match self.model().tokens {
                Some(tokens) => res.is_of_tokens(state::ascending(tokens)),
                None => res.p == self.model().p && res.is_of_registers(
                    self.model().registers,
                    R::variant().d,
                ),
            },
    {
        match &self.storage {
            Storage::Sparse(list) => {
                proof {
                    tokens::lemma_ascending(list@);
                }
                likelihood::token_alpha_beta(list)
            },
            Storage::Dense(registers) => {
                proof {
                    R::variant_bounds();
                    hashing::lemma_one_shl(self.p);
                }
                let words = values(registers, self.p);
                likelihood::compute_alpha_beta(&words, self.p, R::d())
            },
        }
    }

    /// Probability, scaled by `2^64`, that the next hash changes a register, while
    /// the martingale estimator can be followed.
    pub fn martingale_weight(&self) -> (res: Option<i128>)
        requires
            self.wf(),
        ensures
            res is Some <==> self.model().martingale,
            res matches Some(weight) ==> weight == likelihood::total_change_weight(
                self.model().registers,
                self.model().p,
                R::variant().d,
            ),
    {
        if self.martingale_invalid {
            None
        } else {
            Some(self.mu)
        }
    }
}

} // verus!
