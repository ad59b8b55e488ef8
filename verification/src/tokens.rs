//! Sorted lists of distinct hash tokens, the storage of sparse sketches.

use vstd::prelude::*;

use crate::hashing;
use crate::state;

verus! {

/// A strictly increasing list has as many entries as its set has elements.
pub proof fn lemma_increasing_len(s: Seq<u32>)
    requires
        state::strictly_increasing(s),
    ensures
        s.to_set().finite(),
        s.to_set().len() == s.len(),
        s.no_duplicates(),
{
    s.unique_seq_to_set();
}

/// Strictly increasing lists with the same elements are equal.
pub proof fn lemma_increasing_unique(a: Seq<u32>, b: Seq<u32>)
    requires
        state::strictly_increasing(a),
        state::strictly_increasing(b),
        a.to_set() == b.to_set(),
    ensures
        a == b,
    decreases a.len(),
{
    lemma_increasing_len(a);
    lemma_increasing_len(b);
    if a.len() > 0 {
        let x = a.last();
        let y = b.last();
        assert(a.to_set().contains(x));
        assert(b.to_set().contains(y));
        assert(a.contains(y));
        assert(b.contains(x));
        assert(x == y);
        let a1 = a.drop_last();
        let b1 = b.drop_last();
        assert forall|t: u32| a1.to_set().contains(t) == b1.to_set().contains(t) by {
            if a1.contains(t) {
                let i = choose|i: int| 0 <= i < a1.len() && a1[i] == t;
                assert(a[i] == t && t != x);
                assert(a.to_set().contains(t));
                let j = choose|j: int| 0 <= j < b.len() && b[j] == t;
                assert(b1[j] == t);
            }
            if b1.contains(t) {
                let i = choose|i: int| 0 <= i < b1.len() && b1[i] == t;
                assert(b[i] == t && t != y);
                assert(b.to_set().contains(t));
                let j = choose|j: int| 0 <= j < a.len() && a[j] == t;
                assert(a1[j] == t);
            }
        }
        assert(a1.to_set() =~= b1.to_set());
        lemma_increasing_unique(a1, b1);
        assert(a =~= a1.push(x));
        assert(b =~= b1.push(y));
    } else {
        assert(a =~= b);
    }
}

/// A strictly increasing list is the ascending order of its elements.
pub proof fn lemma_ascending(s: Seq<u32>)
    requires
        state::strictly_increasing(s),
    ensures
        state::ascending(s.to_set()) == s,
{
    lemma_increasing_unique(state::ascending(s.to_set()), s);
}

/// Position of `token` in the list, or the position at which to insert it.
fn search(tokens: &Vec<u32>, token: u32) -> (res: (bool, usize))
    requires
        state::strictly_increasing(tokens@),
    ensures
        res.0 == tokens@.contains(token),
        res.1 <= tokens@.len(),
        forall|i: int| 0 <= i < res.1 ==> tokens@[i] < token,
        forall|i: int| res.1 <= i < tokens@.len() ==> tokens@[i] >= token,
{
    let mut lo: usize = 0;
    let mut hi: usize = tokens.len();
    while lo < hi
        invariant
            lo <= hi <= tokens@.len(),
            state::strictly_increasing(tokens@),
            forall|i: int| 0 <= i < lo ==> tokens@[i] < token,
            forall|i: int| hi <= i < tokens@.len() ==> tokens@[i] >= token,
        decreases hi - lo,
    {
        let mid: usize = lo + (hi - lo) / 2;
        if tokens[mid] < token {
            lo = mid + 1;
        } else {
            hi = mid;
        }
    }
    let found: bool = lo < tokens.len() && tokens[lo] == token;
    (found, lo)
}

/// Add a token; the result says whether it was new.
pub fn insert_token(tokens: &mut Vec<u32>, token: u32) -> (added: bool)
    requires
        state::strictly_increasing(old(tokens)@),
    ensures
        added == !old(tokens)@.contains(token),
        !added ==> final(tokens)@ == old(tokens)@,
        added ==> final(tokens)@.len() == old(tokens)@.len() + 1,
        state::strictly_increasing(final(tokens)@),
        final(tokens)@.to_set() == old(tokens)@.to_set().insert(token),
{
    let (found, at) = search(tokens, token);
    let ghost before = tokens@;
    if found {
        assert(before.to_set() =~= before.to_set().insert(token));
        return false;
    }
    tokens.insert(at, token);
    proof {
        let after = tokens@;
        assert(after[at as int] == token);
        assert forall|t: u32| after.to_set().contains(t) == before.to_set().insert(token).contains(
            t,
        ) by {
            if after.contains(t) && t != token {
                let i = choose|i: int| 0 <= i < after.len() && after[i] == t;
                assert(before[if i < at { i } else { i - 1 }] == t);
            }
            if before.contains(t) {
                let i = choose|i: int| 0 <= i < before.len() && before[i] == t;
                assert(after[if i < at { i } else { i + 1 }] == t);
            }
            assert(after.contains(token));
        }
        assert(after.to_set() =~= before.to_set().insert(token));
    }
    true
}

/// The union of two token lists.
pub fn union_tokens(a: &Vec<u32>, b: &Vec<u32>) -> (out: Vec<u32>)
    requires
        state::strictly_increasing(a@),
        state::strictly_increasing(b@),
    ensures
        state::strictly_increasing(out@),
        out@.to_set() == a@.to_set().union(b@.to_set()),
{
    let mut out: Vec<u32> = Vec::new();
    let mut i: usize = 0;
    let mut j: usize = 0;
    while i < a.len() || j < b.len()
        invariant
            i <= a@.len(),
            j <= b@.len(),
            state::strictly_increasing(a@),
            state::strictly_increasing(b@),
            state::strictly_increasing(out@),
            forall|k: int, m: int| 0 <= k < out@.len() && i <= m < a@.len() ==> out@[k] < a@[m],
            forall|k: int, m: int| 0 <= k < out@.len() && j <= m < b@.len() ==> out@[k] < b@[m],
            forall|m: int| 0 <= m < i ==> out@.contains(#[trigger] a@[m]),
            forall|m: int| 0 <= m < j ==> out@.contains(#[trigger] b@[m]),
            forall|k: int|
                0 <= k < out@.len() ==> a@.contains(#[trigger] out@[k]) || b@.contains(out@[k]),
        decreases a@.len() - i + b@.len() - j,
    {
        let ghost before = out@;
        let ghost i0 = i;
        let ghost j0 = j;
        let next: u32;
        if j == b.len() || (i < a.len() && a[i] < b[j]) {
            next = a[i];
            i = i + 1;
        } else if i == a.len() || b[j] < a[i] {
            next = b[j];
            j = j + 1;
        } else {
            next = a[i];
            i = i + 1;
            j = j + 1;
        }
        out.push(next);
        proof {
            assert(a@.contains(next) || b@.contains(next));
            assert(out@[out@.len() - 1] == next);
            assert forall|m: int| 0 <= m < i implies out@.contains(#[trigger] a@[m]) by {
                if m < i0 {
                    assert(before.contains(a@[m]));
                    let k = choose|k: int| 0 <= k < before.len() && before[k] == a@[m];
                    assert(out@[k] == a@[m]);
                }
            }
            assert forall|m: int| 0 <= m < j implies out@.contains(#[trigger] b@[m]) by {
                if m < j0 {
                    assert(before.contains(b@[m]));
                    let k = choose|k: int| 0 <= k < before.len() && before[k] == b@[m];
                    assert(out@[k] == b@[m]);
                }
            }
        }
    }
    proof {
        assert forall|t: u32| out@.to_set().contains(t) == a@.to_set().union(b@.to_set()).contains(
            t,
        ) by {
            if a@.contains(t) {
                let m = choose|m: int| 0 <= m < a@.len() && a@[m] == t;
                assert(out@.contains(a@[m]));
            }
            if b@.contains(t) {
                let m = choose|m: int| 0 <= m < b@.len() && b@[m] == t;
                assert(out@.contains(b@[m]));
            }
        }
        assert(out@.to_set() =~= a@.to_set().union(b@.to_set()));
    }
    out
}

/// The distinct values among `words[lo..hi]`, sorted.
fn sorted_range(words: &Vec<u32>, lo: usize, hi: usize) -> (out: Vec<u32>)
    requires
        lo <= hi <= words@.len(),
    ensures
        state::strictly_increasing(out@),
        out@.to_set() == words@.subrange(lo as int, hi as int).to_set(),
    decreases hi - lo,
{
    let ghost range = words@.subrange(lo as int, hi as int);
    if lo == hi {
        let out: Vec<u32> = Vec::new();
        assert(out@ =~= range);
        out
    } else if hi - lo == 1 {
        let mut out: Vec<u32> = Vec::new();
        out.push(words[lo]);
        assert(out@ =~= range);
        out
    } else {
        let mid: usize = lo + (hi - lo) / 2;
        let left = sorted_range(words, lo, mid);
        let right = sorted_range(words, mid, hi);
        proof {
            let a = words@.subrange(lo as int, mid as int);
            let b = words@.subrange(mid as int, hi as int);
            assert(range =~= a + b);
            vstd::seq_lib::seq_to_set_distributes_over_add(a, b);
        }
        union_tokens(&left, &right)
    }
}

/// Sort and deduplicate.
pub fn sorted_distinct(words: &Vec<u32>) -> (out: Vec<u32>)
    ensures
        state::strictly_increasing(out@),
        out@.to_set() == words@.to_set(),
        out@.len() <= words@.len(),
{
    let out = sorted_range(words, 0, words.len());
    proof {
        assert(words@.subrange(0, words@.len() as int) =~= words@);
        lemma_increasing_len(out@);
        words@.lemma_cardinality_of_set();
    }
    out
}

/// A token list followed by the tokens of `hashes`.
pub fn append_tokens(list: &Vec<u32>, hashes: &[u64]) -> (out: Vec<u32>)
    ensures
        out@ == list@ + hashes@.map_values(|hash: u64| hashing::token_of(hash)),
{
    let mut out: Vec<u32> = list.clone();
    assert(out@ =~= list@);
    let ghost f = |hash: u64| hashing::token_of(hash);
    let mut i: usize = 0;
    assert(out@ =~= list@ + hashes@.take(0).map_values(f));
    while i < hashes.len()
        invariant
            i <= hashes@.len(),
            f == (|hash: u64| hashing::token_of(hash)),
            out@ == list@ + hashes@.take(i as int).map_values(f),
        decreases hashes@.len() - i,
    {
        out.push(hashing::hash_to_token(hashes[i]));
        assert(out@ =~= list@ + hashes@.take(i + 1).map_values(f));
        i = i + 1;
    }
    assert(hashes@.take(i as int) =~= hashes@);
    out
}

/// Number of tokens that the list has room for: `Vec::capacity` of the standard
/// library. Its documentation says that a vector can hold at least its own
/// length, and that no allocation exceeds `isize::MAX` bytes, of which a token
/// takes four. How much more than the length it is, the allocator decides.
#[verifier::external_body]
pub(crate) fn allocated(list: &Vec<u32>) -> (n: usize)
    ensures
        list@.len() <= n,
        n * 4 <= isize::MAX,
{
    list.capacity()
}

} // verus!
