//! The pure parts of the embedding pipeline: which texts are worth
//! embedding, and how a long token stream is windowed into overlapping
//! chunks. The tokenizer and the transformer themselves run in the
//! host; it feeds each returned window to one inference call and
//! averages the pooled vectors.

use vstd::prelude::*;
use crate::words::{word_count, word_count_spec};

verus! {

/// Longest token sequence one inference call takes.
pub const MAX_TOKENS: usize = 512;

/// Overlap between consecutive windows of a long text.
pub const OVERLAP_TOKENS: usize = 256;

/// Texts with fewer words than this are not embedded.
pub const MIN_WORDS_TO_INDEX: usize = 3;

/// Whether a note's content is long enough to embed.
pub fn needs_indexing(content: &str) -> (r: bool)
    ensures
        r == (word_count_spec(content@) >= MIN_WORDS_TO_INDEX as int),
{
    word_count(content) >= MIN_WORDS_TO_INDEX
}

/// The windows starting at `s`, stepping by the stride, each up to
/// `MAX_TOKENS` long, until the end is covered.
pub open spec fn chunks_from(s: int, t: int) -> Seq<(usize, usize)>
    decreases t - s,
{
    if s < 0 || s >= t {
        Seq::empty()
    } else {
        let e = if s + MAX_TOKENS as int <= t {
            s + MAX_TOKENS as int
        } else {
            t
        };
        seq![(s as usize, e as usize)] + (if e >= t {
            Seq::empty()
        } else {
            chunks_from(s + OVERLAP_TOKENS as int, t)
        })
    }
}

/// What `chunk_ranges` returns for a token count.
pub open spec fn chunk_ranges_spec(t: int) -> Seq<(usize, usize)> {
    if t <= MAX_TOKENS as int {
        seq![(0usize, t as usize)]
    } else {
        chunks_from(0, t)
    }
}

/// Windows a token stream: a single whole-stream window when it fits,
/// else windows of `MAX_TOKENS` advancing by `MAX_TOKENS` minus the
/// overlap, the last one ending at the stream's end.
pub fn chunk_ranges(token_count: usize) -> (r: Vec<(usize, usize)>)
    ensures
        r@ == chunk_ranges_spec(token_count as int),
{
    let mut r: Vec<(usize, usize)> = Vec::new();
    if token_count <= MAX_TOKENS {
        r.push((0, token_count));
        proof {
            assert(r@ =~= seq![(0usize, token_count)]);
        }
        return r;
    }
    let mut s: usize = 0;
    let ghost t = token_count as int;
    proof {
        assert(chunks_from(0, t) == r@ + chunks_from(0, t));
        assert(r@ + chunks_from(0, t) =~= chunks_from(0, t));
    }
    loop
        invariant
            0 <= s < token_count,
            t == token_count as int,
            token_count > MAX_TOKENS,
            chunks_from(0, t) == r@ + chunks_from(s as int, t),
        decreases token_count - s,
    {
        let e: usize = if token_count - s >= MAX_TOKENS {
            s + MAX_TOKENS
        } else {
            token_count
        };
        proof {
            assert(chunks_from(s as int, t) == seq![(s, e)] + (if e as int >= t {
                Seq::<(usize, usize)>::empty()
            } else {
                chunks_from(s as int + OVERLAP_TOKENS as int, t)
            }));
        }
        r.push((s, e));
        if e >= token_count {
            proof {
                assert(r@.drop_last() + (seq![(s, e)] + Seq::<(usize, usize)>::empty())
                    =~= r@);
                assert(chunks_from(0, t) =~= r@);
            }
            return r;
        }
        proof {
            assert(r@.drop_last() + (seq![(s, e)] + chunks_from(
                s as int + OVERLAP_TOKENS as int,
                t,
            )) =~= r@ + chunks_from(s as int + OVERLAP_TOKENS as int, t));
        }
        s = s + OVERLAP_TOKENS;
    }
}

} // verus!
