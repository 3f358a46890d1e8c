//! Byte buffers read as 32-bit words, four bytes each, least significant byte first.
use vstd::prelude::*;

verus! {

/// The word that four bytes make, the first one least significant.
pub open spec fn word_of(b0: u8, b1: u8, b2: u8, b3: u8) -> u32 {
    (b0 as u32) | ((b1 as u32) << 8u32) | ((b2 as u32) << 16u32) | ((b3 as u32) << 24u32)
}

/// Byte `j` of a word, counting from the least significant.
pub open spec fn byte_of(w: u32, j: int) -> u8 {
    ((w >> ((j * 8) as u32)) & 0xffu32) as u8
}

/// The words that a byte buffer holds, four bytes to a word.
pub open spec fn words_of_bytes(d: Seq<u8>) -> Seq<u32> {
    Seq::new(d.len() / 4, |i: int| word_of(d[4 * i], d[4 * i + 1], d[4 * i + 2], d[4 * i + 3]))
}

/// The bytes that a word buffer holds, four to a word.
pub open spec fn bytes_of_words(w: Seq<u32>) -> Seq<u8> {
    Seq::new(4 * w.len(), |t: int| byte_of(w[t / 4], t % 4))
}

/// The bytes of a word made of four bytes are those bytes.
proof fn lemma_bytes_of_word(b0: u8, b1: u8, b2: u8, b3: u8)
    ensures
        byte_of(word_of(b0, b1, b2, b3), 0) == b0,
        byte_of(word_of(b0, b1, b2, b3), 1) == b1,
        byte_of(word_of(b0, b1, b2, b3), 2) == b2,
        byte_of(word_of(b0, b1, b2, b3), 3) == b3,
{
    let w = word_of(b0, b1, b2, b3);
    assert((w & 0xffu32) as u8 == b0) by (bit_vector)
        requires
            w == (b0 as u32) | ((b1 as u32) << 8u32) | ((b2 as u32) << 16u32) | ((b3 as u32) << 24u32),
    ;
    assert(((w >> 8u32) & 0xffu32) as u8 == b1) by (bit_vector)
        requires
            w == (b0 as u32) | ((b1 as u32) << 8u32) | ((b2 as u32) << 16u32) | ((b3 as u32) << 24u32),
    ;
    assert(((w >> 16u32) & 0xffu32) as u8 == b2) by (bit_vector)
        requires
            w == (b0 as u32) | ((b1 as u32) << 8u32) | ((b2 as u32) << 16u32) | ((b3 as u32) << 24u32),
    ;
    assert(((w >> 24u32) & 0xffu32) as u8 == b3) by (bit_vector)
        requires
            w == (b0 as u32) | ((b1 as u32) << 8u32) | ((b2 as u32) << 16u32) | ((b3 as u32) << 24u32),
    ;
    assert(w >> 0u32 == w) by (bit_vector);
}

/// A word is made of its four bytes.
proof fn lemma_word_of_bytes(w: u32)
    ensures
        word_of(byte_of(w, 0), byte_of(w, 1), byte_of(w, 2), byte_of(w, 3)) == w,
{
    assert(w >> 0u32 == w) by (bit_vector);
    let b0 = (w & 0xffu32) as u8;
    let b1 = ((w >> 8u32) & 0xffu32) as u8;
    let b2 = ((w >> 16u32) & 0xffu32) as u8;
    let b3 = ((w >> 24u32) & 0xffu32) as u8;
    assert((b0 as u32) | ((b1 as u32) << 8u32) | ((b2 as u32) << 16u32) | ((b3 as u32) << 24u32)
        == w) by (bit_vector)
        requires
            b0 == (w & 0xffu32) as u8,
            b1 == ((w >> 8u32) & 0xffu32) as u8,
            b2 == ((w >> 16u32) & 0xffu32) as u8,
            b3 == ((w >> 24u32) & 0xffu32) as u8,
    ;
}

/// Reading back the bytes of words gives those words.
pub proof fn lemma_words_of_bytes_of_words(w: Seq<u32>)
    ensures
        words_of_bytes(bytes_of_words(w)) == w,
{
    let d = bytes_of_words(w);
    assert forall|i: int| 0 <= i < w.len() implies #[trigger] words_of_bytes(d)[i] == w[i] by {
        assert((4 * i) / 4 == i && (4 * i + 1) / 4 == i && (4 * i + 2) / 4 == i && (4 * i + 3)
            / 4 == i);
        assert((4 * i) % 4 == 0 && (4 * i + 1) % 4 == 1 && (4 * i + 2) % 4 == 2 && (4 * i + 3)
            % 4 == 3);
        lemma_word_of_bytes(w[i]);
    }
    assert(words_of_bytes(d) =~= w);
}

/// Writing out the words of a buffer of whole words gives that buffer.
pub proof fn lemma_bytes_of_words_of_bytes(d: Seq<u8>)
    requires
        d.len() % 4 == 0,
    ensures
        bytes_of_words(words_of_bytes(d)) == d,
{
    let w = words_of_bytes(d);
    assert forall|t: int| 0 <= t < d.len() implies #[trigger] bytes_of_words(w)[t] == d[t] by {
        let i = t / 4;
        assert(4 * i <= t < 4 * i + 4);
        lemma_bytes_of_word(d[4 * i], d[4 * i + 1], d[4 * i + 2], d[4 * i + 3]);
    }
    assert(bytes_of_words(w) =~= d);
}


/// Reads a buffer of whole words.
pub fn read_words(d: &[u8]) -> (r: Vec<u32>)
    requires
        d@.len() % 4 == 0,
    ensures
        r@ == words_of_bytes(d@),
{
    let len = d.len();
    let count = len / 4;
    let mut r: Vec<u32> = Vec::with_capacity(count);
    let mut i: usize = 0;
    while i < count
        invariant
            len == d@.len(),
            count == len / 4,
            i <= count,
            r@.len() == i,
            forall|j: int|
                0 <= j < i ==> #[trigger] r@[j] == word_of(
                    d@[4 * j],
                    d@[4 * j + 1],
                    d@[4 * j + 2],
                    d@[4 * j + 3],
                ),
        decreases count - i,
    {
        let b = 4 * i;
        let w = (d[b] as u32) | ((d[b + 1] as u32) << 8) | ((d[b + 2] as u32) << 16) | ((d[b
            + 3] as u32) << 24);
        r.push(w);
        i += 1;
    }
    assert(r@ =~= words_of_bytes(d@));
    r
}

/// Writes words over a buffer of four bytes for each of them.
pub fn write_words(w: &[u32], d: &mut [u8])
    requires
        old(d)@.len() == 4 * w@.len(),
    ensures
        final(d)@ == bytes_of_words(w@),
{
    let count = w.len();
    let len = d.len();
    let mut i: usize = 0;
    while i < count
        invariant
            count == w@.len(),
            d@.len() == 4 * count,
            len == d@.len(),
            i <= count,
            forall|t: int| 0 <= t < 4 * i ==> #[trigger] d@[t] == byte_of(w@[t / 4], t % 4),
        decreases count - i,
    {
        let x = w[i];
        let b = 4 * i;
        d[b] = (x & 0xff) as u8;
        d[b + 1] = ((x >> 8) & 0xff) as u8;
        d[b + 2] = ((x >> 16) & 0xff) as u8;
        d[b + 3] = ((x >> 24) & 0xff) as u8;
        assert(x >> 0u32 == x) by (bit_vector);
        assert forall|t: int| 0 <= t < 4 * i + 4 implies #[trigger] d@[t] == byte_of(
            w@[t / 4],
            t % 4,
        ) by {
            if t >= 4 * i {
                assert(t / 4 == i as int);
            }
        }
        i += 1;
    }
    assert(d@ =~= bytes_of_words(w@));
}

} // verus!
