//! Single registers: what a register word records, and the insert, merge and
//! precision-reduction rules on it.
//!
//! A register with parameter `d` is a word `r = u * 2^d + <l_1 .. l_d>`: `u` is
//! the largest update value recorded so far, and bit `l_j` says whether the
//! update value `u - j` was recorded as well. Values more than `d` below `u`
//! are forgotten. The empty register is `0`; it stands for the single value 0.

use vstd::prelude::*;

verus! {

/// Number of bits that hold the largest update value.
pub const VALUE_BITS: u32 = 8;

/// Largest `d` for which `u` and the `d` window bits share a 32-bit word.
pub const MAX_D: u32 = 24;

/// Whether bit `pos` of `x` is set.
pub open spec fn bit(x: u32, pos: int) -> bool {
    (x >> (pos as u32)) & 1 == 1
}

/// Largest update value that `r` records.
pub open spec fn top(r: u32, d: u32) -> int {
    (r >> d) as int
}

/// Whether `r` records the update value `v`: `v` is the largest one, or it lies
/// at most `d` below it and its window bit is set.
pub open spec fn recorded(r: u32, d: u32, v: int) -> bool {
    let u = top(r, d);
    v == u || (u - d <= v < u && bit(r, v - (u - d)))
}

/// All update values that `r` records.
pub open spec fn recorded_values(r: u32, d: u32) -> Set<int> {
    Set::new(|v: int| recorded(r, d, v))
}

/// `out` is `r` after the update values in `values` have been recorded in it:
/// its largest value is the largest of `r` and `values`, and of the others it
/// records exactly those that lie within the window of `d` below that.
pub open spec fn absorbs(out: u32, r: u32, d: u32, values: Set<int>) -> bool {
    &&& top(out, d) >= top(r, d)
    &&& forall|v: int| #[trigger] values.contains(v) ==> v <= top(out, d)
    &&& top(out, d) == top(r, d) || values.contains(top(out, d))
    &&& forall|v: int| #[trigger]
        recorded(out, d, v) <==> (v >= top(out, d) - d && (recorded(r, d, v) || values.contains(v)))
}

/// The register `r` after the update values in `values` have been recorded.
pub open spec fn absorb(r: u32, d: u32, values: Set<int>) -> u32 {
    choose|out: u32| absorbs(out, r, d, values)
}

/// The merge of two registers: what `r2` records is recorded in `r`. A register
/// whose largest value is 0 has nothing to shift, so its bits are taken over.
pub open spec fn merged(r: u32, r2: u32, d: u32) -> u32 {
    if top(r, d) == 0 || top(r2, d) == 0 {
        r | r2
    } else {
        absorb(r, d, recorded_values(r2, d))
    }
}

/// Whether the values of `r` from `a` on can be raised by `s`: they lie in the
/// window, and the largest one still fits the word.
pub open spec fn rebasable(r: u32, d: u32, a: int, s: int) -> bool {
    top(r, d) >= a && s > 0 ==> top(r, d) <= d + a && top(r, d) + s <= u32::MAX >> d
}

/// `out` is `r` with each recorded value from `a` on raised by `s`; the values
/// below `a` stay, as far as they still lie in the window.
pub open spec fn rebases(out: u32, r: u32, d: u32, a: int, s: int) -> bool {
    if top(r, d) < a || s == 0 {
        out == r
    } else {
        &&& top(out, d) == top(r, d) + s
        &&& forall|v: int| #[trigger]
            recorded(out, d, v) <==> (v >= top(out, d) - d && ((v < a && recorded(r, d, v)) || (v
                >= a + s && recorded(r, d, v - s))))
    }
}

/// The register `r` with each recorded value from `a` on raised by `s`.
pub open spec fn rebase(r: u32, d: u32, a: int, s: int) -> u32 {
    choose|out: u32| rebases(out, r, d, a, s)
}

/// The window part of a register whose largest value grew by `delta`: the old
/// largest value and its window, moved `delta` places down.
spec fn moved_window(r: u32, d: u32, delta: u32) -> u32 {
    if delta <= d + 1 {
        ((((1u64 << d) | ((r & (((1u32 << d) - 1) as u32)) as u64)) >> (delta as u64)) as u32) & (((
        1u32 << d) - 1) as u32)
    } else {
        0
    }
}

proof fn lemma_moved_window_bits(r: u32, d: u32, delta: u32, pos: u32)
    requires
        1 <= d <= 24,
        pos < d,
        1 <= delta,
    ensures
        bit(moved_window(r, d, delta), pos as int) <==> (pos + delta == d || (pos + delta < d && bit(
            r,
            pos + delta,
        ))),
        moved_window(r, d, delta) < 1u32 << d,
{
    let w = moved_window(r, d, delta);
    assert(0u32 < 1u32 << d) by (bit_vector)
        requires
            d <= 24,
    ;
    if delta <= d + 1 {
        let q = (pos + delta) as u32;
        assert(((w >> pos) & 1 == 1) == (q == d || (q < d && (r >> q) & 1 == 1)) && w < 1u32 << d)
            by (bit_vector)
            requires
                1 <= d <= 24,
                pos < d,
                1 <= delta <= d + 1,
                q == pos + delta,
                w == ((((1u64 << d) | ((r & (((1u32 << d) - 1) as u32)) as u64)) >> (
                delta as u64)) as u32) & (((1u32 << d) - 1) as u32),
        ;
    } else {
        assert((0u32 >> pos) & 1 != 1) by (bit_vector);
    }
}

/// A word put together from a largest value and window bits.
proof fn lemma_word_parts(k: u32, low: u32, d: u32, pos: u32)
    requires
        1 <= d <= 24,
        k <= u32::MAX >> d,
        low < 1u32 << d,
        pos < d,
    ensures
        ((k << d) | low) >> d == k,
        bit((k << d) | low, pos as int) == bit(low, pos as int),
{
    assert(((k << d) | low) >> d == k && (((((k << d) | low) >> pos) & 1 == 1) == ((low >> pos) & 1
        == 1))) by (bit_vector)
        requires
            1 <= d <= 24,
            k <= u32::MAX >> d,
            low < 1u32 << d,
            pos < d,
    ;
}

/// Adding a window part to a word leaves its largest value alone.
proof fn lemma_or_low(r: u32, low: u32, d: u32, pos: u32)
    requires
        1 <= d <= 24,
        low < 1u32 << d,
        pos < d,
    ensures
        (r | low) >> d == r >> d,
        bit(r | low, pos as int) == (bit(r, pos as int) || bit(low, pos as int)),
{
    assert((r | low) >> d == r >> d && ((((r | low) >> pos) & 1 == 1) == ((r >> pos) & 1 == 1 || (
    low >> pos) & 1 == 1))) by (bit_vector)
        requires
            1 <= d <= 24,
            low < 1u32 << d,
            pos < d,
    ;
}

/// Two words with the same high part and the same bits below it are equal.
proof fn lemma_same_bits(a: u32, b: u32, n: u32)
    requires
        n <= 24,
        a >> n == b >> n,
        forall|pos: int| 0 <= pos < n ==> #[trigger] bit(a, pos) == bit(b, pos),
    ensures
        a == b,
    decreases n,
{
    if n == 0 {
        assert(a >> 0 == a && b >> 0 == b) by (bit_vector);
    } else {
        let m = (n - 1) as u32;
        assert(bit(a, m as int) == bit(b, m as int));
        assert(a >> m == b >> m) by (bit_vector)
            requires
                1 <= n <= 24,
                m == n - 1,
                a >> n == b >> n,
                ((a >> m) & 1 == 1) == ((b >> m) & 1 == 1),
        ;
        lemma_same_bits(a, b, m);
    }
}

/// A register word is determined by what it records.
pub proof fn lemma_recorded_determines(a: u32, b: u32, d: u32)
    requires
        1 <= d <= 24,
        top(a, d) == top(b, d),
        forall|v: int| #[trigger] recorded(a, d, v) == recorded(b, d, v),
    ensures
        a == b,
{
    let u = top(a, d);
    assert forall|pos: int| 0 <= pos < d implies #[trigger] bit(a, pos) == bit(b, pos) by {
        let v = u - d + pos;
        assert(recorded(a, d, v) == recorded(b, d, v));
        assert(v - (u - d) == pos);
    }
    lemma_same_bits(a, b, d);
}

/// At most one register is `r` with `values` recorded.
pub proof fn lemma_absorb_unique(a: u32, b: u32, r: u32, d: u32, values: Set<int>)
    requires
        1 <= d <= 24,
        absorbs(a, r, d, values),
        absorbs(b, r, d, values),
    ensures
        a == b,
        a == absorb(r, d, values),
{
    lemma_same_absorbed(a, b, r, d, values);
    lemma_same_absorbed(a, absorb(r, d, values), r, d, values);
}

proof fn lemma_same_absorbed(a: u32, b: u32, r: u32, d: u32, values: Set<int>)
    requires
        1 <= d <= 24,
        absorbs(a, r, d, values),
        absorbs(b, r, d, values),
    ensures
        a == b,
{
    assert(top(a, d) == top(b, d));
    assert forall|v: int| #[trigger] recorded(a, d, v) == recorded(b, d, v) by {}
    lemma_recorded_determines(a, b, d);
}

/// Recording a value above all recorded ones moves the window down.
proof fn lemma_raise_top(r: u32, k: u32, d: u32)
    requires
        1 <= d <= 24,
        k <= u32::MAX >> d,
        k > top(r, d),
    ensures
        absorbs((k << d) | moved_window(r, d, (k - top(r, d)) as u32), r, d, set![k as int]),
{
    let u = top(r, d);
    let delta = (k - u) as u32;
    let low = moved_window(r, d, delta);
    let out = (k << d) | low;
    lemma_moved_window_bits(r, d, delta, 0);
    lemma_word_parts(k, low, d, 0);
    assert forall|v: int| #[trigger]
        recorded(out, d, v) <==> (v >= top(out, d) - d && (recorded(r, d, v) || set![
            k as int,
        ].contains(v))) by {
        if k - d <= v < k {
            let pos = v - (k - d);
            lemma_moved_window_bits(r, d, delta, pos as u32);
            lemma_word_parts(k, low, d, pos as u32);
            assert(pos + delta == v - (u - d));
        }
    }
}

/// Recording a value below the largest one sets its window bit.
proof fn lemma_set_window_bit(r: u32, k: u32, d: u32)
    requires
        1 <= d <= 24,
        top(r, d) - d <= k < top(r, d),
    ensures
        absorbs(r | (1u32 << ((k - (top(r, d) - d)) as u32)), r, d, set![k as int]),
{
    let u = top(r, d);
    let at = (k - (u - d)) as u32;
    let low = 1u32 << at;
    let out = r | low;
    assert(low < 1u32 << d) by (bit_vector)
        requires
            at < d <= 24,
            low == 1u32 << at,
    ;
    lemma_or_low(r, low, d, 0);
    assert forall|v: int| #[trigger]
        recorded(out, d, v) <==> (v >= top(out, d) - d && (recorded(r, d, v) || set![
            k as int,
        ].contains(v))) by {
        if u - d <= v < u {
            let pos = (v - (u - d)) as u32;
            lemma_or_low(r, low, d, pos);
            assert(((low >> pos) & 1 == 1) == (pos == at)) by (bit_vector)
                requires
                    at < d <= 24,
                    pos < d,
                    low == 1u32 << at,
            ;
        }
    }
}

/// Whether `r` records the update value `k` below its largest one.
pub fn is_recorded(r: u32, d: u32, k: u32) -> (res: bool)
    requires
        1 <= d <= MAX_D,
        top(r, d) - d <= k < top(r, d),
    ensures
        res == recorded(r, d, k as int),
{
    let u: u32 = r >> d;
    (r >> (d - (u - k))) & 1 == 1
}

/// Record the update value `k` in the register `r`.
pub fn apply_insert(r: u32, k: u32, d: u32) -> (out: u32)
    requires
        1 <= d <= MAX_D,
        k <= u32::MAX >> d,
    ensures
        absorbs(out, r, d, set![k as int]),
        out == absorb(r, d, set![k as int]),
{
    let u: u32 = r >> d;
    let out: u32;
    if k > u {
        proof {
            lemma_raise_top(r, k, d);
        }
        out = (k << d) | window_above(r, d, k - u);
    } else if k < u && u - k <= d {
        proof {
            lemma_set_window_bit(r, k, d);
        }
        let pos: u32 = d - (u - k);
        out = r | (1u32 << pos);
    } else {
        out = r;
    }
    proof {
        lemma_absorb_unique(out, out, r, d, set![k as int]);
    }
    out
}

/// The window that remains of `r` once its largest value has grown by `delta`.
fn window_above(r: u32, d: u32, delta: u32) -> (w: u32)
    requires
        1 <= d <= 24,
        1 <= delta,
    ensures
        w == moved_window(r, d, delta),
{
    assert(1u32 << d >= 1) by (bit_vector)
        requires
            d <= 24,
    ;
    let d_mask: u32 = (1u32 << d) - 1;
    if delta <= d + 1 {
        let combined: u64 = (1u64 << d) | ((r & d_mask) as u64);
        (#[verifier::truncate] ((combined >> (delta as u64)) as u32)) & d_mask
    } else {
        0
    }
}

/// Merging a register with a smaller largest value moves its window in.
proof fn lemma_merge_smaller(r: u32, r2: u32, d: u32)
    requires
        1 <= d <= 24,
        top(r2, d) < top(r, d),
    ensures
        absorbs(
            r | moved_window(r2, d, (top(r, d) - top(r2, d)) as u32),
            r,
            d,
            recorded_values(r2, d),
        ),
        absorbs(
            r | moved_window(r2, d, (top(r, d) - top(r2, d)) as u32),
            r2,
            d,
            recorded_values(r, d),
        ),
{
    let u = top(r, d);
    let u2 = top(r2, d);
    let delta = (u - u2) as u32;
    let low = moved_window(r2, d, delta);
    let out = r | low;
    lemma_moved_window_bits(r2, d, delta, 0);
    lemma_or_low(r, low, d, 0);
    assert forall|v: int| #[trigger]
        recorded(out, d, v) <==> (v >= top(out, d) - d && (recorded(r, d, v) || recorded(
            r2,
            d,
            v,
        ))) by {
        if u - d <= v < u {
            let pos = v - (u - d);
            lemma_moved_window_bits(r2, d, delta, pos as u32);
            lemma_or_low(r, low, d, pos as u32);
            assert(pos + delta == v - (u2 - d));
        }
    }
}

/// Merging registers with the same largest value joins their windows.
proof fn lemma_merge_level(r: u32, r2: u32, d: u32)
    requires
        1 <= d <= 24,
        top(r, d) == top(r2, d),
    ensures
        absorbs(r | r2, r, d, recorded_values(r2, d)),
{
    let u = top(r, d);
    let out = r | r2;
    assert(out >> d == r >> d) by (bit_vector)
        requires
            1 <= d <= 24,
            r >> d == r2 >> d,
            out == r | r2,
    ;
    assert forall|v: int| #[trigger]
        recorded(out, d, v) <==> (v >= top(out, d) - d && (recorded(r, d, v) || recorded_values(
            r2,
            d,
        ).contains(v))) by {
        if u - d <= v < u {
            let pos = (v - (u - d)) as u32;
            assert(((out >> pos) & 1 == 1) == ((r >> pos) & 1 == 1 || (r2 >> pos) & 1 == 1))
                by (bit_vector)
                requires
                    pos < 24,
                    out == r | r2,
            ;
        }
    }
}

/// Merge two register values of sketches with the same parameters.
pub fn merge_register(r: u32, r2: u32, d: u32) -> (out: u32)
    requires
        1 <= d <= MAX_D,
    ensures
        out == merged(r, r2, d),
        top(r, d) > 0 && top(r2, d) > 0 ==> absorbs(out, r, d, recorded_values(r2, d)),
        top(out, d) == if top(r, d) >= top(r2, d) {
            top(r, d)
        } else {
            top(r2, d)
        },
{
    let u: u32 = r >> d;
    let u2: u32 = r2 >> d;
    let out: u32;
    if u > u2 && u2 > 0 {
        proof {
            lemma_merge_smaller(r, r2, d);
        }
        out = r | window_above(r2, d, u - u2);
    } else if u2 > u && u > 0 {
        proof {
            lemma_merge_smaller(r2, r, d);
        }
        out = r2 | window_above(r, d, u2 - u);
    } else {
        proof {
            if u == u2 {
                lemma_merge_level(r, r2, d);
            }
            lemma_or_top(r, r2, d);
        }
        out = r | r2;
    }
    proof {
        if u > 0 && u2 > 0 {
            lemma_absorb_unique(out, out, r, d, recorded_values(r2, d));
        }
    }
    out
}

/// A word without a largest value takes nothing away from the other's.
proof fn lemma_or_top(r: u32, r2: u32, d: u32)
    by (bit_vector)
    requires
        1 <= d <= 24,
        r >> d == 0 || r2 >> d == 0 || r >> d == r2 >> d,
    ensures
        (r | r2) >> d == r >> d || r2 >> d > 0,
        (r | r2) >> d == r2 >> d || r >> d > 0,
        r >> d == r2 >> d ==> (r | r2) >> d == r >> d,
{
}

/// The word in which the low `v` bits have moved down by `s`.
proof fn lemma_low_moved(r: u32, d: u32, v: u32, s: u32, pos: u32, word: u32)
    requires
        1 <= d <= 24,
        v <= d,
        pos < d,
        s <= 0xffff,
        word == ((r >> v) << v) | (if s < 32 { (r & (((1u32 << v) - 1) as u32)) >> s } else { 0 }),
    ensures
        word >> d == r >> d,
        pos >= v ==> bit(word, pos as int) == bit(r, pos as int),
        pos < v && pos + s < v ==> bit(word, pos as int) == bit(r, pos + s),
        pos < v && pos + s >= v ==> !bit(word, pos as int),
{
    let q = (pos + s) as u32;
    let low = if s < 32 {
        (r & (((1u32 << v) - 1) as u32)) >> s
    } else {
        0
    };
    assert(low < 1u32 << v && (pos < v && q < v ==> ((low >> pos) & 1 == 1) == ((r >> q) & 1 == 1))
        && (pos < v && q >= v ==> (low >> pos) & 1 != 1)) by (bit_vector)
        requires
            v <= 24,
            pos < 24,
            s <= 0xffff,
            q == pos + s,
            low == (if s < 32 { (r & (((1u32 << v) - 1) as u32)) >> s } else { 0 }),
    ;
    assert(word >> d == r >> d && (pos >= v ==> ((word >> pos) & 1 == 1) == ((r >> pos) & 1 == 1))
        && (pos < v ==> ((word >> pos) & 1 == 1) == ((low >> pos) & 1 == 1))) by (bit_vector)
        requires
            v <= d <= 24,
            pos < 24,
            low < 1u32 << v,
            word == ((r >> v) << v) | low,
    ;
}

/// Adding `s` to the largest value of a word leaves its window alone.
proof fn lemma_add_to_top(word: u32, d: u32, s: u32, pos: u32)
    by (bit_vector)
    requires
        1 <= d <= 24,
        pos < d,
        (word >> d) + s <= u32::MAX >> d,
    ensures
        word + (s << d) <= u32::MAX,
        ((word + (s << d)) as u32) >> d == (word >> d) + s,
        ((((word + (s << d)) as u32) >> pos) & 1 == 1) == ((word >> pos) & 1 == 1),
{
}

/// Raise each recorded update value from `a` on by `s`, keeping the ones below.
pub fn rebase_register(r: u32, d: u32, a: u32, s: u32) -> (out: u32)
    requires
        1 <= d <= MAX_D,
        rebasable(r, d, a as int, s as int),
        a <= 0xffff,
        s <= 0xffff,
    ensures
        rebases(out, r, d, a as int, s as int),
        out == rebase(r, d, a as int, s as int),
{
    let u: u32 = r >> d;
    if u < a || s == 0 {
        proof {
            lemma_rebase_unique(r, r, r, d, a as int, s as int);
        }
        return r;
    }
    let v: u32 = d + a - u;
    assert(1u32 << v >= 1) by (bit_vector)
        requires
            v <= 24,
    ;
    let high: u32 = (r >> v) << v;
    let low: u32 = r & ((1u32 << v) - 1);
    let low_moved: u32 = if s < 32 {
        low >> s
    } else {
        0
    };
    let word: u32 = high | low_moved;
    proof {
        lemma_low_moved(r, d, v, s, 0, word);
        lemma_add_to_top(word, d, s, 0);
    }
    let out: u32 = word + (s << d);
    proof {
        assert forall|x: int| #[trigger]
            recorded(out, d, x) <==> (x >= top(out, d) - d && ((x < a && recorded(r, d, x)) || (x
                >= a + s && recorded(r, d, x - s)))) by {
            if u + s - d <= x < u + s {
                let pos = (x - (u + s - d)) as u32;
                lemma_low_moved(r, d, v, s, pos, word);
                lemma_add_to_top(word, d, s, pos);
            }
        }
        lemma_rebase_unique(out, out, r, d, a as int, s as int);
    }
    out
}

/// At most one register is `r` with the values from `a` on raised by `s`.
pub proof fn lemma_rebase_unique(x: u32, y: u32, r: u32, d: u32, a: int, s: int)
    requires
        1 <= d <= 24,
        rebases(x, r, d, a, s),
        rebases(y, r, d, a, s),
    ensures
        x == y,
        x == rebase(r, d, a, s),
{
    let z = rebase(r, d, a, s);
    assert(rebases(z, r, d, a, s));
    if top(r, d) >= a && s != 0 {
        assert forall|v: int| #[trigger] recorded(x, d, v) == recorded(y, d, v) by {}
        lemma_recorded_determines(x, y, d);
        assert forall|v: int| #[trigger] recorded(x, d, v) == recorded(z, d, v) by {}
        lemma_recorded_determines(x, z, d);
    }
}

/// Some register is `r` with `values` recorded, as long as they fit the word.
pub proof fn lemma_absorb_exists(r: u32, d: u32, values: Set<int>)
    requires
        1 <= d <= 24,
        forall|v: int| #[trigger] values.contains(v) ==> 0 <= v <= u32::MAX >> d,
    ensures
        absorbs(absorb(r, d, values), r, d, values),
{
    let n = (u32::MAX >> d) + 1;
    let out = lemma_absorb_below(r, d, values, n as nat);
    assert(values =~= values.intersect(Set::new(|v: int| v < n)));
}

proof fn lemma_absorb_below(r: u32, d: u32, values: Set<int>, n: nat) -> (out: u32)
    requires
        1 <= d <= 24,
        n <= (u32::MAX >> d) + 1,
        forall|v: int| #[trigger] values.contains(v) ==> 0 <= v,
    ensures
        absorbs(out, r, d, values.intersect(Set::new(|v: int| v < n))),
    decreases n,
{
    let below = values.intersect(Set::new(|v: int| v < n));
    if n == 0 {
        assert(below =~= Set::empty());
        r
    } else {
        let k = n - 1;
        let prev = values.intersect(Set::new(|v: int| v < k));
        let x = lemma_absorb_below(r, d, values, k as nat);
        if values.contains(k) {
            let y = lemma_insert_exists(x, k as u32, d);
            lemma_absorb_compose(y, x, r, d, prev, set![k]);
            assert(prev.union(set![k]) =~= below);
            y
        } else {
            assert(prev =~= below);
            x
        }
    }
}

proof fn lemma_insert_exists(r: u32, k: u32, d: u32) -> (out: u32)
    requires
        1 <= d <= 24,
        k <= u32::MAX >> d,
    ensures
        absorbs(out, r, d, set![k as int]),
{
    let u = top(r, d);
    if k > u {
        lemma_raise_top(r, k, d);
        (k << d) | moved_window(r, d, (k - u) as u32)
    } else if u - d <= k < u {
        lemma_set_window_bit(r, k, d);
        r | (1u32 << ((k - (u - d)) as u32))
    } else {
        r
    }
}

/// Merging two registers that record something records both.
pub proof fn lemma_merge_exists(r: u32, r2: u32, d: u32)
    requires
        1 <= d <= 24,
        top(r, d) > 0,
        top(r2, d) > 0,
    ensures
        absorbs(merged(r, r2, d), r, d, recorded_values(r2, d)),
{
    let values = recorded_values(r2, d);
    let out = if top(r, d) > top(r2, d) {
        lemma_merge_smaller(r, r2, d);
        r | moved_window(r2, d, (top(r, d) - top(r2, d)) as u32)
    } else if top(r2, d) > top(r, d) {
        lemma_merge_smaller(r2, r, d);
        r2 | moved_window(r, d, (top(r2, d) - top(r, d)) as u32)
    } else {
        lemma_merge_level(r, r2, d);
        r | r2
    };
    lemma_absorb_unique(out, out, r, d, values);
}

/// Recording two groups of values one after the other records both.
pub proof fn lemma_absorb_compose(
    out: u32,
    mid: u32,
    r: u32,
    d: u32,
    first: Set<int>,
    second: Set<int>,
)
    requires
        absorbs(mid, r, d, first),
        absorbs(out, mid, d, second),
    ensures
        absorbs(out, r, d, first.union(second)),
{
    let both = first.union(second);
    assert forall|v: int| #[trigger] both.contains(v) implies v <= top(out, d) by {}
    assert forall|v: int| #[trigger]
        recorded(out, d, v) <==> (v >= top(out, d) - d && (recorded(r, d, v) || both.contains(v))) by {
        assert(recorded(mid, d, v) <==> (v >= top(mid, d) - d && (recorded(r, d, v)
            || first.contains(v))));
    }
}

} // verus!
