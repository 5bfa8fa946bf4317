//! The byte encoding of embedding vectors: each 32-bit word (the bit
//! pattern of one single-precision float) becomes four little-endian
//! bytes. A 384-dimensional vector encodes to exactly 1536 bytes.

use vstd::prelude::*;

verus! {

/// Number of dimensions of an embedding vector.
pub const EMBEDDING_DIM: usize = 384;

/// Number of bytes the encoding of an embedding vector takes.
pub const EMBEDDING_BLOB_LEN: usize = 1536;

/// The four little-endian bytes of one 32-bit word.
pub open spec fn le_bytes_of_word(w: u32) -> Seq<u8> {
    seq![
        (w & 0xff) as u8,
        ((w >> 8) & 0xff) as u8,
        ((w >> 16) & 0xff) as u8,
        ((w >> 24) & 0xff) as u8,
    ]
}

/// The 32-bit word read from four little-endian bytes.
pub open spec fn word_of_le_bytes(b0: u8, b1: u8, b2: u8, b3: u8) -> u32 {
    (b0 as u32) | ((b1 as u32) << 8) | ((b2 as u32) << 16) | ((b3 as u32) << 24)
}

/// The byte encoding of a word sequence.
pub open spec fn blob_of_words(v: Seq<u32>) -> Seq<u8>
    decreases v.len(),
{
    if v.len() == 0 {
        Seq::empty()
    } else {
        le_bytes_of_word(v[0]) + blob_of_words(v.drop_first())
    }
}

/// The words read back from a byte sequence, four bytes at a time;
/// fewer than four trailing bytes are ignored.
pub open spec fn words_of_blob(b: Seq<u8>) -> Seq<u32>
    decreases b.len(),
{
    if b.len() < 4 {
        Seq::empty()
    } else {
        seq![word_of_le_bytes(b[0], b[1], b[2], b[3])] + words_of_blob(b.skip(4))
    }
}

pub proof fn lemma_blob_len(v: Seq<u32>)
    ensures
        blob_of_words(v).len() == 4 * v.len(),
    decreases v.len(),
{
    if v.len() > 0 {
        lemma_blob_len(v.drop_first());
    }
}

proof fn lemma_word_round_trip(w: u32)
    ensures
        word_of_le_bytes(
            (w & 0xff) as u8,
            ((w >> 8) & 0xff) as u8,
            ((w >> 16) & 0xff) as u8,
            ((w >> 24) & 0xff) as u8,
        ) == w,
{
    assert(((w & 0xff) as u8 as u32) | (((w >> 8) & 0xff) as u8 as u32) << 8 | (((w >> 16)
        & 0xff) as u8 as u32) << 16 | (((w >> 24) & 0xff) as u8 as u32) << 24 == w)
        by (bit_vector);
}

proof fn lemma_blob_push(v: Seq<u32>, w: u32)
    ensures
        blob_of_words(v.push(w)) == blob_of_words(v) + le_bytes_of_word(w),
    decreases v.len(),
{
    if v.len() == 0 {
        assert(v.push(w).len() == 1);
        assert(v.push(w)[0] == w);
        assert(v.push(w).drop_first() =~= Seq::<u32>::empty());
        assert(blob_of_words(v.push(w)) == le_bytes_of_word(w) + blob_of_words(Seq::<
            u32,
        >::empty()));
        assert(blob_of_words(v) == Seq::<u8>::empty());
        assert(le_bytes_of_word(w) + Seq::<u8>::empty() =~= le_bytes_of_word(w));
        assert(Seq::<u8>::empty() + le_bytes_of_word(w) =~= le_bytes_of_word(w));
    } else {
        assert(v.push(w).len() == v.len() + 1);
        assert(v.push(w)[0] == v[0]);
        assert(v.push(w).drop_first() =~= v.drop_first().push(w));
        lemma_blob_push(v.drop_first(), w);
        assert(le_bytes_of_word(v[0]) + (blob_of_words(v.drop_first()) + le_bytes_of_word(w))
            =~= (le_bytes_of_word(v[0]) + blob_of_words(v.drop_first())) + le_bytes_of_word(w));
    }
}

proof fn lemma_words_append4(b: Seq<u8>, c: Seq<u8>)
    requires
        b.len() % 4 == 0,
        c.len() == 4,
    ensures
        words_of_blob(b + c) == words_of_blob(b).push(word_of_le_bytes(c[0], c[1], c[2], c[3])),
    decreases b.len(),
{
    if b.len() == 0 {
        assert(b + c =~= c);
        assert(c.skip(4) =~= Seq::<u8>::empty());
        assert(words_of_blob(c.skip(4)) == Seq::<u32>::empty());
        assert(words_of_blob(c) == seq![word_of_le_bytes(c[0], c[1], c[2], c[3])] + Seq::<
            u32,
        >::empty());
        assert(seq![word_of_le_bytes(c[0], c[1], c[2], c[3])] + Seq::<u32>::empty() =~= Seq::<
            u32,
        >::empty().push(word_of_le_bytes(c[0], c[1], c[2], c[3])));
    } else {
        assert(b.len() >= 4);
        assert((b + c).len() >= 4);
        assert((b + c)[0] == b[0]);
        assert((b + c)[1] == b[1]);
        assert((b + c)[2] == b[2]);
        assert((b + c)[3] == b[3]);
        assert((b + c).skip(4) =~= b.skip(4) + c);
        assert(b.skip(4).len() % 4 == 0);
        lemma_words_append4(b.skip(4), c);
        assert(seq![word_of_le_bytes(b[0], b[1], b[2], b[3])] + words_of_blob(b.skip(4)).push(
            word_of_le_bytes(c[0], c[1], c[2], c[3]),
        ) =~= (seq![word_of_le_bytes(b[0], b[1], b[2], b[3])] + words_of_blob(b.skip(4))).push(
            word_of_le_bytes(c[0], c[1], c[2], c[3]),
        ));
    }
}

/// Decoding is a left inverse of encoding: a vector written as bytes and
/// read back gives the original words, bit for bit.
pub proof fn lemma_blob_round_trip(v: Seq<u32>)
    ensures
        words_of_blob(blob_of_words(v)) == v,
    decreases v.len(),
{
    if v.len() == 0 {
        assert(words_of_blob(blob_of_words(v)) =~= v);
    } else {
        let w = v[0];
        lemma_word_round_trip(w);
        lemma_blob_round_trip(v.drop_first());
        lemma_blob_len(v.drop_first());
        let rest = blob_of_words(v.drop_first());
        assert(blob_of_words(v) == le_bytes_of_word(w) + rest);
        assert((le_bytes_of_word(w) + rest).len() >= 4);
        assert((le_bytes_of_word(w) + rest)[0] == (w & 0xff) as u8);
        assert((le_bytes_of_word(w) + rest)[1] == ((w >> 8) & 0xff) as u8);
        assert((le_bytes_of_word(w) + rest)[2] == ((w >> 16) & 0xff) as u8);
        assert((le_bytes_of_word(w) + rest)[3] == ((w >> 24) & 0xff) as u8);
        assert((le_bytes_of_word(w) + rest).skip(4) =~= rest);
        assert(words_of_blob(blob_of_words(v)) == seq![w] + v.drop_first());
        assert(seq![w] + v.drop_first() =~= v);
    }
}

/// Encodes a vector of 32-bit words as little-endian bytes.
pub fn embedding_to_blob(v: &Vec<u32>) -> (r: Vec<u8>)
    ensures
        r@ == blob_of_words(v@),
        r@.len() == 4 * v@.len(),
{
    let mut r: Vec<u8> = Vec::new();
    let mut i: usize = 0;
    proof {
        assert(v@.take(0) =~= Seq::<u32>::empty());
        lemma_blob_len(v@);
    }
    while i < v.len()
        invariant
            i <= v@.len(),
            r@ == blob_of_words(v@.take(i as int)),
            r@.len() == 4 * i,
        decreases v@.len() - i,
    {
        let w: u32 = v[i];
        proof {
            lemma_blob_push(v@.take(i as int), w);
            assert(v@.take(i + 1) =~= v@.take(i as int).push(w));
            assert(w & 0xff < 256 && (w >> 8) & 0xff < 256 && (w >> 16) & 0xff < 256 && (w >> 24)
                & 0xff < 256) by (bit_vector);
        }
        r.push((w & 0xff) as u8);
        r.push(((w >> 8) & 0xff) as u8);
        r.push(((w >> 16) & 0xff) as u8);
        r.push(((w >> 24) & 0xff) as u8);
        proof {
            assert(r@ =~= blob_of_words(v@.take(i as int)) + le_bytes_of_word(w));
        }
        i = i + 1;
    }
    proof {
        assert(v@.take(v@.len() as int) =~= v@);
    }
    r
}

/// Decodes little-endian bytes back into 32-bit words; fewer than four
/// trailing bytes are ignored.
pub fn blob_to_embedding(b: &Vec<u8>) -> (r: Vec<u32>)
    ensures
        r@ == words_of_blob(b@),
{
    let mut r: Vec<u32> = Vec::new();
    let mut i: usize = 0;
    proof {
        assert(b@.take(0) =~= Seq::<u8>::empty());
    }
    while b.len() >= 4 && i <= b.len() - 4
        invariant
            i <= b@.len(),
            i % 4 == 0,
            r@ == words_of_blob(b@.take(i as int)),
        decreases b@.len() - i,
    {
        let b0: u8 = b[i];
        let b1: u8 = b[i + 1];
        let b2: u8 = b[i + 2];
        let b3: u8 = b[i + 3];
        let w: u32 = (b0 as u32) | ((b1 as u32) << 8) | ((b2 as u32) << 16) | ((b3 as u32) << 24);
        proof {
            let c = b@.subrange(i as int, i + 4);
            assert(c[0] == b@[i as int] && c[1] == b@[i + 1] && c[2] == b@[i + 2] && c[3] == b@[i
                + 3]);
            lemma_words_append4(b@.take(i as int), c);
            assert(b@.take(i + 4) =~= b@.take(i as int) + c);
        }
        r.push(w);
        i = i + 4;
    }
    proof {
        let n = b@.len() as int;
        assert(n - i < 4);
        if i < n {
            // the trailing bytes decode to nothing
            lemma_words_short_tail(b@, i as int);
        } else {
            assert(b@.take(i as int) =~= b@);
        }
    }
    r
}

proof fn lemma_words_short_tail(b: Seq<u8>, i: int)
    requires
        0 <= i <= b.len(),
        b.len() - i < 4,
        i % 4 == 0,
    ensures
        words_of_blob(b.take(i)) == words_of_blob(b),
    decreases i,
{
    if i == 0 {
        assert(b.take(0) =~= Seq::<u8>::empty());
        assert(b.len() < 4);
    } else {
        assert(b.len() >= 4);
        assert(b.take(i).len() >= 4);
        assert(b.take(i)[0] == b[0] && b.take(i)[1] == b[1] && b.take(i)[2] == b[2] && b.take(i)[3]
            == b[3]);
        assert(b.take(i).skip(4) =~= b.skip(4).take(i - 4));
        lemma_words_short_tail(b.skip(4), i - 4);
    }
}

} // verus!
