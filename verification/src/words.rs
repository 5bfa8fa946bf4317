//! Splitting text into whitespace-separated words, and the word count
//! derived from it.

use vstd::prelude::*;
use crate::chars::{is_ws, is_ws_char};

verus! {

/// Length of the leading run of non-whitespace characters.
pub open spec fn token_len(s: Seq<char>) -> nat
    decreases s.len(),
{
    if s.len() == 0 || is_ws_char(s[0]) {
        0
    } else {
        1 + token_len(s.drop_first())
    }
}

proof fn lemma_token_len_le(s: Seq<char>)
    ensures
        token_len(s) <= s.len(),
    decreases s.len(),
{
    if s.len() > 0 && !is_ws_char(s[0]) {
        lemma_token_len_le(s.drop_first());
    }
}

/// `token_len` is the unique boundary of the leading non-whitespace run.
proof fn lemma_token_len_char(s: Seq<char>, m: int)
    requires
        0 <= m <= s.len(),
        forall|k: int| 0 <= k < m ==> !is_ws_char(s[k]),
        m == s.len() || is_ws_char(s[m]),
    ensures
        token_len(s) == m,
    decreases m,
{
    if m == 0 {
    } else {
        assert(!is_ws_char(s[0]));
        assert forall|k: int| 0 <= k < m - 1 implies !is_ws_char(s.drop_first()[k]) by {
            assert(s.drop_first()[k] == s[k + 1]);
        }
        if m - 1 < s.drop_first().len() {
            assert(s.drop_first()[m - 1] == s[m]);
        }
        lemma_token_len_char(s.drop_first(), m - 1);
    }
}

/// The whitespace-separated words of `s`, in order.
pub open spec fn tokens_of(s: Seq<char>) -> Seq<Seq<char>>
    decreases s.len(),
    via tokens_of_dec
{
    if s.len() == 0 {
        Seq::empty()
    } else if is_ws_char(s[0]) {
        tokens_of(s.drop_first())
    } else {
        seq![s.take(token_len(s) as int)] + tokens_of(s.skip(token_len(s) as int))
    }
}

#[via_fn]
proof fn tokens_of_dec(s: Seq<char>) {
    if s.len() > 0 && !is_ws_char(s[0]) {
        lemma_token_len_le(s);
    }
}

/// What `word_count` counts.
pub open spec fn word_count_spec(s: Seq<char>) -> int {
    tokens_of(s).len() as int
}

pub proof fn lemma_tokens_count_le(s: Seq<char>)
    ensures
        tokens_of(s).len() <= s.len(),
    decreases s.len(),
{
    if s.len() == 0 {
    } else if is_ws_char(s[0]) {
        lemma_tokens_count_le(s.drop_first());
    } else {
        lemma_token_len_le(s);
        lemma_tokens_count_le(s.skip(token_len(s) as int));
        assert(s.skip(token_len(s) as int).len() == s.len() - token_len(s));
    }
}

proof fn lemma_tokens_skip_ws(s: Seq<char>, i: int)
    requires
        0 <= i < s.len(),
        is_ws_char(s[i]),
    ensures
        tokens_of(s.skip(i)) == tokens_of(s.skip(i + 1)),
{
    assert(s.skip(i)[0] == s[i]);
    assert(s.skip(i).drop_first() =~= s.skip(i + 1));
}

proof fn lemma_tokens_head(s: Seq<char>, start: int, j: int)
    requires
        0 <= start < s.len(),
        !is_ws_char(s[start]),
        start < j <= s.len(),
        forall|k: int| start <= k < j ==> !is_ws_char(s[k]),
        j == s.len() || is_ws_char(s[j]),
    ensures
        tokens_of(s.skip(start)) == seq![s.subrange(start, j)] + tokens_of(s.skip(j)),
{
    let t = s.skip(start);
    assert(t[0] == s[start]);
    assert forall|k: int| 0 <= k < j - start implies !is_ws_char(t[k]) by {
        assert(t[k] == s[start + k]);
    }
    if j - start < t.len() {
        assert(t[j - start] == s[j]);
    }
    lemma_token_len_char(t, j - start);
    assert(t.take(j - start) =~= s.subrange(start, j));
    assert(t.skip(j - start) =~= s.skip(j));
}

/// Whether the character at position `j` is whitespace.
fn ws_at(s: &str, j: usize) -> (r: bool)
    requires
        j < s@.len(),
    ensures
        r == is_ws_char(s@[j as int]),
{
    is_ws(s.get_char(j))
}

/// Splits `s` into its whitespace-separated words.
pub fn tokenize(s: &str) -> (r: Vec<String>)
    ensures
        r@.map_values(|t: String| t@) == tokens_of(s@),
{
    let n: usize = s.unicode_len();
    let mut out: Vec<String> = Vec::new();
    let mut i: usize = 0;
    proof {
        assert(s@.skip(0) =~= s@);
        assert(out@.map_values(|t: String| t@) + tokens_of(s@) =~= tokens_of(s@));
    }
    while i < n
        invariant
            i <= n,
            n == s@.len(),
            tokens_of(s@) == out@.map_values(|t: String| t@) + tokens_of(s@.skip(i as int)),
        decreases n - i,
    {
        let c: char = s.get_char(i);
        if is_ws(c) {
            proof {
                lemma_tokens_skip_ws(s@, i as int);
            }
            i = i + 1;
        } else {
            let start: usize = i;
            let mut j: usize = i + 1;
            while j < n && !ws_at(s, j)
                invariant
                    start < j <= n,
                    n == s@.len(),
                    forall|k: int| start <= k < j ==> !is_ws_char(s@[k]),
                decreases n - j,
            {
                j = j + 1;
            }
            let tok: String = String::from_str(s.substring_char(start, j));
            out.push(tok);
            proof {
                lemma_tokens_head(s@, start as int, j as int);
                assert(out@.map_values(|t: String| t@) =~= out@.drop_last().map_values(
                    |t: String| t@,
                ).push(s@.subrange(start as int, j as int)));
                assert(out@.map_values(|t: String| t@) + tokens_of(s@.skip(j as int))
                    =~= out@.drop_last().map_values(|t: String| t@) + (seq![
                    s@.subrange(start as int, j as int),
                ] + tokens_of(s@.skip(j as int))));
            }
            i = j;
        }
    }
    proof {
        assert(s@.skip(n as int) =~= Seq::<char>::empty());
        assert(out@.map_values(|t: String| t@) + tokens_of(s@.skip(n as int)) =~= out@.map_values(
            |t: String| t@,
        ));
    }
    out
}

/// Counts the whitespace-separated words of `s`, the derived `word_count`
/// attribute of a note.
pub fn word_count(s: &str) -> (r: usize)
    ensures
        r == word_count_spec(s@),
{
    let toks = tokenize(s);
    proof {
        assert(toks@.map_values(|t: String| t@).len() == toks@.len());
    }
    toks.len()
}

} // verus!
