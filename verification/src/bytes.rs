//! Little-endian 32-bit words in byte sequences.

use vstd::prelude::*;

verus! {

/// Byte `k` of the little-endian form of `x`.
pub open spec fn le_byte(x: u32, k: int) -> u8 {
    (if k == 0 {
        x as int % 256
    } else if k == 1 {
        (x as int / 0x100) % 256
    } else if k == 2 {
        (x as int / 0x1_0000) % 256
    } else {
        x as int / 0x100_0000
    }) as u8
}

/// The little-endian form of a sequence of words.
pub open spec fn le_bytes(words: Seq<u32>) -> Seq<u8> {
    Seq::new(words.len() * 4, |k: int| le_byte(words[k / 4], k % 4))
}

/// The word whose little-endian form starts at `at`.
pub open spec fn le_word(b: Seq<u8>, at: int) -> u32 {
    (b[at] + b[at + 1] * 0x100 + b[at + 2] * 0x1_0000 + b[at + 3] * 0x100_0000) as u32
}

/// The words whose little-endian forms make up `b`.
pub open spec fn le_words(b: Seq<u8>) -> Seq<u32> {
    Seq::new(b.len() / 4, |i: int| le_word(b, i * 4))
}

/// Reading and writing a word are inverse to each other.
pub proof fn lemma_le_word(b: Seq<u8>, at: int)
    ensures
        le_byte(le_word(b, at), 0) == b[at],
        le_byte(le_word(b, at), 1) == b[at + 1],
        le_byte(le_word(b, at), 2) == b[at + 2],
        le_byte(le_word(b, at), 3) == b[at + 3],
{
    let x = le_word(b, at);
    let b0 = b[at];
    let b1 = b[at + 1];
    let b2 = b[at + 2];
    let b3 = b[at + 3];
    assert(x == b0 + b1 * 0x100 + b2 * 0x1_0000 + b3 * 0x100_0000);
    assert(x as int / 0x100 == b1 + b2 * 0x100 + b3 * 0x1_0000);
    assert(x as int / 0x1_0000 == b2 + b3 * 0x100);
    assert(x as int / 0x100_0000 == b3);
}

/// The four bytes of a word give the word.
pub proof fn lemma_le_byte_sum(x: u32)
    ensures
        le_byte(x, 0) + le_byte(x, 1) * 0x100 + le_byte(x, 2) * 0x1_0000 + le_byte(x, 3)
            * 0x100_0000 == x,
{
}

/// A word can be read back from the little-endian form that holds it.
pub proof fn lemma_le_bytes_word(words: Seq<u32>, i: int)
    requires
        0 <= i < words.len(),
    ensures
        le_word(le_bytes(words), i * 4) == words[i],
{
    let b = le_bytes(words);
    assert(b[i * 4] == le_byte(words[i], 0));
    assert(b[i * 4 + 1] == le_byte(words[i], 1));
    assert(b[i * 4 + 2] == le_byte(words[i], 2));
    assert(b[i * 4 + 3] == le_byte(words[i], 3));
    lemma_le_byte_sum(words[i]);
}

/// Words can be read back from their little-endian form.
pub proof fn lemma_words_of_bytes(words: Seq<u32>)
    ensures
        le_words(le_bytes(words)) == words,
{
    assert forall|i: int| 0 <= i < words.len() implies le_words(le_bytes(words))[i] == words[i] by {
        lemma_le_bytes_word(words, i);
    }
    assert(le_words(le_bytes(words)) =~= words);
}

/// Words read from bytes have these bytes as their little-endian form.
pub proof fn lemma_bytes_of_words(b: Seq<u8>)
    requires
        b.len() % 4 == 0,
    ensures
        le_bytes(le_words(b)) == b,
{
    let words = le_words(b);
    assert forall|k: int| 0 <= k < b.len() implies #[trigger] le_bytes(words)[k] == b[k] by {
        let i = k / 4;
        assert(words[i] == le_word(b, i * 4));
        lemma_le_word(b, i * 4);
        assert(k == i * 4 + k % 4);
    }
    assert(le_bytes(words) =~= b);
}

/// Append the little-endian form of `x`.
pub fn push_word(out: &mut Vec<u8>, x: u32)
    ensures
        final(out)@ == old(out)@.push(le_byte(x, 0)).push(le_byte(x, 1)).push(le_byte(x, 2)).push(
            le_byte(x, 3),
        ),
{
    out.push((x % 0x100) as u8);
    out.push((x / 0x100 % 0x100) as u8);
    out.push((x / 0x1_0000 % 0x100) as u8);
    out.push((x / 0x100_0000) as u8);
}

/// Append the little-endian form of all `words`.
pub fn push_words(out: &mut Vec<u8>, words: &Vec<u32>)
    ensures
        final(out)@ == old(out)@ + le_bytes(words@),
{
    let ghost before = out@;
    let mut i: usize = 0;
    assert(out@ =~= before + le_bytes(words@.take(0)));
    while i < words.len()
        invariant
            i <= words@.len(),
            out@ == before + le_bytes(words@.take(i as int)),
        decreases words@.len() - i,
    {
        push_word(out, words[i]);
        assert(out@ =~= before + le_bytes(words@.take(i + 1)));
        i = i + 1;
    }
    assert(words@.take(i as int) =~= words@);
}

/// The word whose little-endian form starts at `at`.
pub fn read_word(bytes: &[u8], at: usize) -> (x: u32)
    requires
        at + 4 <= bytes@.len(),
    ensures
        x == le_word(bytes@, at as int),
{
    bytes[at] as u32 + bytes[at + 1] as u32 * 0x100 + bytes[at + 2] as u32 * 0x1_0000 + bytes[at
        + 3] as u32 * 0x100_0000
}

/// The words whose little-endian forms fill `bytes` from `from` on.
pub fn read_words(bytes: &[u8], from: usize) -> (words: Vec<u32>)
    requires
        from <= bytes@.len(),
        (bytes@.len() - from) % 4 == 0,
    ensures
        words@.len() * 4 == bytes@.len() - from,
        words@ == le_words(bytes@.skip(from as int)),
{
    let mut words: Vec<u32> = Vec::new();
    let mut at: usize = from;
    while at < bytes.len()
        invariant
            from <= at <= bytes@.len(),
            (bytes@.len() - from) % 4 == 0,
            at - from == words@.len() * 4,
            forall|i: int|
                0 <= i < words@.len() ==> #[trigger] words@[i] == le_word(bytes@, from + i * 4),
        decreases bytes@.len() - at,
    {
        words.push(read_word(bytes, at));
        at = at + 4;
    }
    proof {
        assert(words@ =~= le_words(bytes@.skip(from as int)));
    }
    words
}

} // verus!
