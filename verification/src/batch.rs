//! Batches of register updates: computing them from hashes, and sorting them by
//! register.

use vstd::arithmetic::power2::*;
use vstd::prelude::*;

use crate::hashing;
use crate::state;
use crate::MAX_P;

verus! {

/// Register index and update value of a hash.
pub open spec fn update_of(hash: u64, p: u32) -> (u32, u32) {
    (hashing::register_index(hash, p) as u32, hashing::update_value(hash, p) as u32)
}

/// Register indexes and update values of a list of hashes.
pub open spec fn updates_of(hashes: Seq<u64>, p: u32) -> Seq<(u32, u32)> {
    hashes.map_values(|hash: u64| update_of(hash, p))
}

/// Whether an update is one of register `i`.
pub open spec fn goes_to(i: int) -> spec_fn((u32, u32)) -> bool {
    |update: (u32, u32)| update.0 == i
}

/// The updates of register `i`, in their order.
pub open spec fn bucket(updates: Seq<(u32, u32)>, i: int) -> Seq<(u32, u32)> {
    updates.filter(goes_to(i))
}

/// The updates of the registers below `m`, register by register.
pub open spec fn by_register(updates: Seq<(u32, u32)>, m: nat) -> Seq<(u32, u32)>
    decreases m,
{
    if m == 0 {
        Seq::empty()
    } else {
        by_register(updates, (m - 1) as nat) + bucket(updates, m - 1)
    }
}

/// The update values that a list of updates brings to register `i`.
pub open spec fn update_values(updates: Seq<(u32, u32)>, i: int) -> Set<int> {
    Set::new(
        |v: int|
            exists|n: int|
                0 <= n < updates.len() && (#[trigger] updates[n]).0 == i && updates[n].1 == v,
    )
}

/// One register update.
fn update(hash: u64, p: u32) -> (res: (u32, u32))
    requires
        p <= MAX_P,
    ensures
        res == update_of(hash, p),
{
    let (i, k) = hashing::hash_to_register_k(hash, p);
    proof {
        hashing::lemma_one_shl(p);
    }
    (i as u32, k)
}

/// Append the updates of `hashes`, four at a time.
pub fn fill_iks(hashes: &[u64], p: u32, output: &mut Vec<(u32, u32)>)
    requires
        p <= MAX_P,
    ensures
        final(output)@ == old(output)@ + updates_of(hashes@, p),
{
    let ghost before = output@;
    let n: usize = hashes.len();
    let mut i: usize = 0;
    assert(output@ =~= before + updates_of(hashes@.take(0), p));
    while n - i >= 4
        invariant
            i <= n == hashes@.len(),
            p <= MAX_P,
            output@ == before + updates_of(hashes@.take(i as int), p),
        decreases n - i,
    {
        let u0 = update(hashes[i], p);
        let u1 = update(hashes[i + 1], p);
        let u2 = update(hashes[i + 2], p);
        let u3 = update(hashes[i + 3], p);
        output.push(u0);
        output.push(u1);
        output.push(u2);
        output.push(u3);
        assert(output@ =~= before + updates_of(hashes@.take(i + 4), p));
        i = i + 4;
    }
    while i < n
        invariant
            i <= n == hashes@.len(),
            p <= MAX_P,
            output@ == before + updates_of(hashes@.take(i as int), p),
        decreases n - i,
    {
        output.push(update(hashes[i], p));
        assert(output@ =~= before + updates_of(hashes@.take(i + 1), p));
        i = i + 1;
    }
    assert(hashes@.take(i as int) =~= hashes@);
}

/// One more update goes to the end of its bucket.
proof fn lemma_bucket_push(updates: Seq<(u32, u32)>, update: (u32, u32), i: int)
    ensures
        bucket(updates.push(update), i) == if update.0 == i {
            bucket(updates, i).push(update)
        } else {
            bucket(updates, i)
        },
{
    updates.lemma_filter_push(update, goes_to(i));
}

/// A bucket only grows as more updates come.
proof fn lemma_bucket_prefix(updates: Seq<(u32, u32)>, n: int, i: int)
    requires
        0 <= n <= updates.len(),
    ensures
        bucket(updates.take(n), i).len() <= bucket(updates, i).len(),
        n < updates.len() && updates[n].0 == i ==> bucket(updates.take(n), i).len() < bucket(
            updates,
            i,
        ).len(),
    decreases updates.len() - n,
{
    if n == updates.len() {
        assert(updates.take(n) =~= updates);
    } else {
        lemma_bucket_prefix(updates, n + 1, i);
        assert(updates.take(n + 1) =~= updates.take(n).push(updates[n]));
        lemma_bucket_push(updates.take(n), updates[n], i);
    }
}

/// The buckets below `b` lie behind those below `a`.
proof fn lemma_starts_ordered(updates: Seq<(u32, u32)>, a: nat, b: nat)
    requires
        a <= b,
    ensures
        by_register(updates, a).len() <= by_register(updates, b).len(),
        a < b ==> by_register(updates, a).len() + bucket(updates, a as int).len() <= by_register(
            updates,
            b,
        ).len(),
    decreases b,
{
    if a < b {
        lemma_starts_ordered(updates, a, (b - 1) as nat);
        if a == b - 1 {
        }
    }
}

/// One more update makes the sorted list one longer.
proof fn lemma_by_register_push_len(updates: Seq<(u32, u32)>, update: (u32, u32), m: nat)
    ensures
        by_register(updates.push(update), m).len() == by_register(updates, m).len() + if update.0
            < m {
            1int
        } else {
            0int
        },
    decreases m,
{
    if m > 0 {
        lemma_by_register_push_len(updates, update, (m - 1) as nat);
        lemma_bucket_push(updates, update, m - 1);
    }
}

/// Sorting keeps the number of updates.
pub proof fn lemma_by_register_len(updates: Seq<(u32, u32)>, m: nat)
    requires
        forall|n: int| 0 <= n < updates.len() ==> (#[trigger] updates[n]).0 < m,
    ensures
        by_register(updates, m).len() == updates.len(),
    decreases updates.len(),
{
    if updates.len() == 0 {
        lemma_by_register_empty(updates, m);
    } else {
        let rest = updates.drop_last();
        assert(updates =~= rest.push(updates.last()));
        assert forall|n: int| 0 <= n < rest.len() implies (#[trigger] rest[n]).0 < m by {
            assert(rest[n] == updates[n]);
        }
        lemma_by_register_len(rest, m);
        lemma_by_register_push_len(rest, updates.last(), m);
    }
}

proof fn lemma_by_register_empty(updates: Seq<(u32, u32)>, m: nat)
    requires
        updates.len() == 0,
    ensures
        by_register(updates, m).len() == 0,
    decreases m,
{
    if m > 0 {
        lemma_by_register_empty(updates, (m - 1) as nat);
        updates.lemma_filter_len(goes_to(m - 1));
    }
}

/// Sorting keeps the updates themselves.
pub proof fn lemma_by_register_contains(updates: Seq<(u32, u32)>, m: nat, update: (u32, u32))
    ensures
        by_register(updates, m).contains(update) <==> (update.0 < m && updates.contains(update)),
    decreases m,
{
    if m > 0 {
        let rest = by_register(updates, (m - 1) as nat);
        let last = bucket(updates, m - 1);
        let pred = goes_to(m - 1);
        lemma_by_register_contains(updates, (m - 1) as nat, update);
        if last.contains(update) {
            let n = choose|n: int| 0 <= n < last.len() && last[n] == update;
            updates.lemma_filter_pred(pred, n);
            updates.lemma_filter_contains_rev(pred, update);
            assert((rest + last)[rest.len() + n] == update);
        }
        if rest.contains(update) {
            let n = choose|n: int| 0 <= n < rest.len() && rest[n] == update;
            assert((rest + last)[n] == update);
        }
        if updates.contains(update) && update.0 == m - 1 {
            let n = choose|n: int| 0 <= n < updates.len() && updates[n] == update;
            updates.lemma_filter_contains(pred, n);
        }
        if (rest + last).contains(update) {
            let n = choose|n: int| 0 <= n < (rest + last).len() && (rest + last)[n] == update;
            if n < rest.len() {
                assert(rest[n] == update);
            } else {
                assert(last[n - rest.len()] == update);
            }
        }
    }
}

/// The list that a sorted batch goes through is ordered by register.
pub proof fn updates_are_sorted_by_register(updates: Seq<(u32, u32)>, m: nat)
    ensures
        forall|a: int, b: int|
            0 <= a <= b < by_register(updates, m).len() ==> by_register(updates, m)[a].0
                <= by_register(updates, m)[b].0,
    decreases m,
{
    if m > 0 {
        let rest = by_register(updates, (m - 1) as nat);
        let last = bucket(updates, m - 1);
        let pred = goes_to(m - 1);
        updates_are_sorted_by_register(updates, (m - 1) as nat);
        assert forall|a: int, b: int| 0 <= a <= b < (rest + last).len() implies (rest + last)[a].0
            <= (rest + last)[b].0 by {
            if b >= rest.len() {
                updates.lemma_filter_pred(pred, b - rest.len());
                if a >= rest.len() {
                    updates.lemma_filter_pred(pred, a - rest.len());
                } else {
                    assert(rest.contains(rest[a]));
                    lemma_by_register_contains(updates, (m - 1) as nat, rest[a]);
                }
            }
        }
    }
}

/// A list that holds every bucket at its place is the sorted list.
proof fn lemma_buckets_placed(out: Seq<(u32, u32)>, updates: Seq<(u32, u32)>, m: nat, k: nat)
    requires
        k <= m,
        out.len() == by_register(updates, m).len(),
        forall|i: nat, j: int|
            i < m && 0 <= j < bucket(updates, i as int).len() ==> out[by_register(updates, i).len()
                + j] == #[trigger] bucket(updates, i as int)[j],
    ensures
        by_register(updates, k).len() <= out.len(),
        out.take(by_register(updates, k).len() as int) == by_register(updates, k),
    decreases k,
{
    lemma_starts_ordered(updates, k, m);
    if k > 0 {
        let i = (k - 1) as nat;
        lemma_buckets_placed(out, updates, m, i);
        let start = by_register(updates, i).len() as int;
        let end = by_register(updates, k).len() as int;
        assert forall|x: int| 0 <= x < end implies out.take(end)[x] == by_register(updates, k)[x] by {
            if x < start {
                assert(out.take(start)[x] == by_register(updates, i)[x]);
            } else {
                assert(bucket(updates, i as int)[x - start] == out[start + (x - start)]);
            }
        }
        assert(out.take(end) =~= by_register(updates, k));
    } else {
        assert(out.take(0) =~= by_register(updates, 0));
    }
}

/// How many updates each of `m` registers has.
fn count_buckets(iks: &Vec<(u32, u32)>, m: usize) -> (counts: Vec<usize>)
    requires
        forall|n: int| 0 <= n < iks@.len() ==> (#[trigger] iks@[n]).0 < m,
    ensures
        counts@.len() == m,
        forall|i: int| 0 <= i < m ==> #[trigger] counts@[i] == bucket(iks@, i).len(),
{
    let mut counts: Vec<usize> = vec![0usize; m];
    proof {
        assert forall|i: int| 0 <= i < m implies #[trigger] counts@[i] == bucket(
            iks@.take(0),
            i,
        ).len() by {
            iks@.take(0).lemma_filter_len(goes_to(i));
        }
    }
    let mut n: usize = 0;
    assert(iks@.len() == iks.len());
    while n < iks.len()
        invariant
            n <= iks@.len(),
            iks@.len() <= usize::MAX,
            counts@.len() == m,
            forall|x: int| 0 <= x < iks@.len() ==> (#[trigger] iks@[x]).0 < m,
            forall|i: int|
                0 <= i < m ==> #[trigger] counts@[i] == bucket(iks@.take(n as int), i).len(),
        decreases iks@.len() - n,
    {
        let key: usize = iks[n].0 as usize;
        let ghost seen = iks@.take(n as int);
        proof {
            assert(iks@.take(n + 1) =~= seen.push(iks@[n as int]));
            seen.lemma_filter_len(goes_to(key as int));
            assert forall|i: int| 0 <= i < m implies bucket(iks@.take(n + 1), i).len() == (#[trigger]
            counts@[i]) + (if i == key {
                1int
            } else {
                0int
            }) by {
                lemma_bucket_push(seen, iks@[n as int], i);
            }
        }
        counts[key] = counts[key] + 1;
        n = n + 1;
    }
    assert(iks@.take(n as int) =~= iks@);
    counts
}

/// Stable counting sort of updates by their register, of which there are `m`.
pub fn counting_sort_by_register(iks: &mut Vec<(u32, u32)>, m: usize)
    requires
        forall|n: int| 0 <= n < old(iks)@.len() ==> (#[trigger] old(iks)@[n]).0 < m,
    ensures
        final(iks)@ == by_register(old(iks)@, m as nat),
{
    let ghost updates = iks@;
    let counts = count_buckets(iks, m);
    proof {
        lemma_by_register_len(updates, m as nat);
    }
    let mut next: Vec<usize> = Vec::new();
    let mut start: usize = 0;
    assert(iks@.len() == iks.len());
    let mut i: usize = 0;
    while i < m
        invariant
            i <= m,
            updates == iks@,
            iks@.len() <= usize::MAX,
            by_register(updates, m as nat).len() == updates.len(),
            counts@.len() == m,
            forall|x: int| 0 <= x < m ==> #[trigger] counts@[x] == bucket(updates, x).len(),
            next@.len() == i,
            start == by_register(updates, i as nat).len(),
            forall|x: int|
                0 <= x < i ==> #[trigger] next@[x] == by_register(updates, x as nat).len(),
        decreases m - i,
    {
        proof {
            lemma_starts_ordered(updates, i as nat, m as nat);
            lemma_starts_ordered(updates, (i + 1) as nat, m as nat);
        }
        next.push(start);
        start = start + counts[i];
        i = i + 1;
    }
    let mut out: Vec<(u32, u32)> = vec![(0u32, 0u32); iks.len()];
    let mut n: usize = 0;
    proof {
        assert forall|x: int| 0 <= x < m implies bucket(updates.take(0), x).len() == 0 by {
            updates.take(0).lemma_filter_len(goes_to(x));
        }
    }
    while n < iks.len()
        invariant
            n <= iks@.len(),
            updates == iks@,
            out@.len() == updates.len(),
            by_register(updates, m as nat).len() == updates.len(),
            forall|x: int| 0 <= x < updates.len() ==> (#[trigger] updates[x]).0 < m,
            next@.len() == m,
            forall|x: int|
                0 <= x < m ==> #[trigger] next@[x] == by_register(updates, x as nat).len()
                    + bucket(updates.take(n as int), x).len(),
            forall|x: nat, j: int|
                x < m && 0 <= j < bucket(updates.take(n as int), x as int).len() ==> out@[
                by_register(updates, x).len() + j] == #[trigger] bucket(
                    updates.take(n as int),
                    x as int,
                )[j],
        decreases iks@.len() - n,
    {
        let item: (u32, u32) = iks[n];
        let key: usize = item.0 as usize;
        let at: usize = next[key];
        let ghost seen = updates.take(n as int);
        let ghost more = updates.take(n + 1);
        let ghost before = out@;
        proof {
            assert(more =~= seen.push(item));
            lemma_bucket_prefix(updates, n as int, key as int);
            lemma_starts_ordered(updates, key as nat, m as nat);
        }
        out[at] = item;
        next[key] = at + 1;
        proof {
            assert forall|x: int| 0 <= x < m implies #[trigger] next@[x] == by_register(
                updates,
                x as nat,
            ).len() + bucket(more, x).len() by {
                lemma_bucket_push(seen, item, x);
            }
            assert forall|x: nat, j: int|
                x < m && 0 <= j < bucket(more, x as int).len() implies out@[by_register(
                updates,
                x,
            ).len() + j] == #[trigger] bucket(more, x as int)[j] by {
                lemma_bucket_push(seen, item, x as int);
                lemma_bucket_prefix(updates, n as int, x as int);
                lemma_bucket_prefix(updates, n + 1, x as int);
                let place = by_register(updates, x).len() + j;
                if x == key {
                    if j < bucket(seen, x as int).len() {
                        assert(bucket(seen, x as int)[j] == before[place]);
                    }
                } else {
                    assert(bucket(seen, x as int)[j] == before[place]);
                    if x < key {
                        lemma_starts_ordered(updates, x, key as nat);
                    } else {
                        lemma_starts_ordered(updates, key as nat, x);
                    }
                    lemma_starts_ordered(updates, x, m as nat);
                }
            }
        }
        n = n + 1;
    }
    proof {
        assert(updates.take(n as int) =~= updates);
        lemma_buckets_placed(out@, updates, m as nat, m as nat);
        assert(out@.take(out@.len() as int) =~= out@);
    }
    *iks = out;
}

/// The sorted updates of a list of hashes bring each register what the hashes
/// bring to it.
pub proof fn lemma_sorted_update_values(hashes: Seq<u64>, p: u32, i: int)
    requires
        p <= 26,
        0 <= i < pow2(p as nat),
    ensures
        update_values(by_register(updates_of(hashes, p), pow2(p as nat)), i) == state::values_at(
            hashes.to_set(),
            p,
            i,
        ),
{
    let updates = updates_of(hashes, p);
    let sorted = by_register(updates, pow2(p as nat));
    let got = update_values(sorted, i);
    let want = state::values_at(hashes.to_set(), p, i);
    hashing::lemma_one_shl(p);
    assert forall|v: int| got.contains(v) == want.contains(v) by {
        if got.contains(v) {
            let n = choose|n: int|
                0 <= n < sorted.len() && (#[trigger] sorted[n]).0 == i && sorted[n].1 == v;
            assert(sorted.contains(sorted[n]));
            lemma_by_register_contains(updates, pow2(p as nat), sorted[n]);
            let x = choose|x: int| 0 <= x < updates.len() && updates[x] == sorted[n];
            hashing::lemma_update_bounds(hashes[x], p);
            assert(hashes.to_set().contains(hashes[x]));
        }
        if want.contains(v) {
            let hash = choose|hash: u64| #[trigger]
                hashes.to_set().contains(hash) && hashing::register_index(hash, p) == i
                    && hashing::update_value(hash, p) == v;
            hashing::lemma_update_bounds(hash, p);
            let x = choose|x: int| 0 <= x < hashes.len() && hashes[x] == hash;
            let update = update_of(hash, p);
            assert(updates[x] == update);
            lemma_by_register_contains(updates, pow2(p as nat), update);
            let n = choose|n: int| 0 <= n < sorted.len() && sorted[n] == update;
            assert(sorted[n].0 == i && sorted[n].1 == v);
        }
    }
    assert(got =~= want);
}

} // verus!
