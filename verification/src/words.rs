use vstd::prelude::*;

verus! {

// The binary encoding is a sequence of big-endian 4-byte words. Reading and
// writing them is plain byte arithmetic, specified and verified here once
// and shared by the header and value codecs.
/// The four big-endian bytes of a word.
pub open spec fn word_bytes(w: u32) -> Seq<u8> {
    seq![
        (w / 0x100_0000) as u8,
        ((w / 0x1_0000) % 0x100) as u8,
        ((w / 0x100) % 0x100) as u8,
        (w % 0x100) as u8,
    ]
}

/// The word read big-endian at byte offset `i`.
pub open spec fn word_at(b: Seq<u8>, i: int) -> u32 {
    ((b[i] as int) * 0x100_0000 + (b[i + 1] as int) * 0x1_0000 + (b[i + 2] as int) * 0x100 + (b[i
        + 3] as int)) as u32
}

/// The big-endian bytes of a whole word sequence, in order.
pub open spec fn words_bytes(s: Seq<u32>) -> Seq<u8>
    decreases s.len(),
{
    if s.len() == 0 {
        Seq::empty()
    } else {
        word_bytes(s[0]) + words_bytes(s.drop_first())
    }
}

pub proof fn lemma_words_bytes_len(s: Seq<u32>)
    ensures
        words_bytes(s).len() == 4 * s.len(),
    decreases s.len(),
{
    if s.len() > 0 {
        lemma_words_bytes_len(s.drop_first());
    }
}

/// Reading a word back from its own four bytes yields the word.
pub proof fn lemma_word_at_bytes(w: u32, b: Seq<u8>, i: int)
    requires
        0 <= i,
        i + 4 <= b.len(),
        b.subrange(i, i + 4) == word_bytes(w),
    ensures
        word_at(b, i) == w,
{
    assert(b[i] == word_bytes(w)[0]);
    assert(b[i + 1] == word_bytes(w)[1]);
    assert(b[i + 2] == word_bytes(w)[2]);
    assert(b[i + 3] == word_bytes(w)[3]);
    assert((w / 0x100_0000) * 0x100_0000 + ((w / 0x1_0000) % 0x100) * 0x1_0000 + ((w / 0x100)
        % 0x100) * 0x100 + (w % 0x100) == w) by (bit_vector);
}

/// Reading the `k`-th word out of a flattened word sequence (with anything
/// after it) yields that word back.
pub proof fn lemma_word_at_words(s: Seq<u32>, b: Seq<u8>, pos: int, k: int)
    requires
        0 <= k < s.len(),
        0 <= pos,
        b.subrange(pos, pos + 4 * s.len()) == words_bytes(s),
        pos + 4 * s.len() <= b.len(),
    ensures
        word_at(b, pos + 4 * k) == s[k],
    decreases k,
{
    lemma_words_bytes_len(s);
    lemma_words_bytes_len(s.drop_first());
    if k == 0 {
        assert(b.subrange(pos, pos + 4) == word_bytes(s[0])) by {
            assert forall|j: int| 0 <= j < 4 implies b.subrange(pos, pos + 4)[j] == word_bytes(
                s[0],
            )[j] by {
                assert(b.subrange(pos, pos + 4 * s.len())[j] == word_bytes(s[0])[j]);
            }
            assert(b.subrange(pos, pos + 4) =~= word_bytes(s[0]));
        }
        lemma_word_at_bytes(s[0], b, pos);
    } else {
        let tail = s.drop_first();
        assert(b.subrange(pos + 4, pos + 4 + 4 * tail.len()) == words_bytes(tail)) by {
            assert forall|j: int| 0 <= j < 4 * tail.len() implies b.subrange(
                pos + 4,
                pos + 4 + 4 * tail.len(),
            )[j] == words_bytes(tail)[j] by {
                assert(b.subrange(pos, pos + 4 * s.len())[j + 4] == (word_bytes(s[0])
                    + words_bytes(tail))[j + 4]);
            }
            assert(b.subrange(pos + 4, pos + 4 + 4 * tail.len()) =~= words_bytes(tail));
        }
        lemma_word_at_words(tail, b, pos + 4, k - 1);
    }
}

/// Reads the big-endian word at byte offset `i`.
pub fn read_word(b: &[u8], i: usize) -> (w: u32)
    requires
        i + 4 <= b@.len(),
    ensures
        w == word_at(b@, i as int),
{
    let b0 = b[i] as u32;
    let b1 = b[i + 1] as u32;
    let b2 = b[i + 2] as u32;
    let b3 = b[i + 3] as u32;
    b0 * 0x100_0000 + b1 * 0x1_0000 + b2 * 0x100 + b3
}

/// Appends the big-endian bytes of `w`.
pub fn push_word(out: &mut Vec<u8>, w: u32)
    ensures
        final(out)@ == old(out)@ + word_bytes(w),
{
    out.push((w / 0x100_0000) as u8);
    out.push(((w / 0x1_0000) % 0x100) as u8);
    out.push(((w / 0x100) % 0x100) as u8);
    out.push((w % 0x100) as u8);
    assert(out@ =~= old(out)@ + word_bytes(w));
}

} // verus!
