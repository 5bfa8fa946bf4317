//! Sanitization of full-text queries and the lexical match model the
//! in-memory store answers them with.
//!
//! A query is split on whitespace; tokens equal to the FTS operators
//! `OR`, `AND`, `NOT`, `NEAR` (case-insensitively) or containing `*` or
//! `:` are dropped; embedded double quotes are stripped; each surviving
//! token is wrapped in double quotes; the quoted tokens are joined with
//! single spaces.

use vstd::prelude::*;
use crate::chars::{char_eq, contains_char, push_char};
use crate::snippet::{join_sp, lemma_join_push};
use crate::words::{tokenize, tokens_of};

verus! {

/// `c` equals the upper-case ASCII letter `up`, or its lower-case form.
pub open spec fn ci_char(c: char, up: char) -> bool {
    c == up || c as u32 == up as u32 + 32
}

/// Whether `t` is one of the FTS operator keywords, compared
/// ASCII-case-insensitively.
pub open spec fn is_fts_keyword(t: Seq<char>) -> bool {
    ||| (t.len() == 2 && ci_char(t[0], 'O') && ci_char(t[1], 'R'))
    ||| (t.len() == 3 && ci_char(t[0], 'A') && ci_char(t[1], 'N') && ci_char(t[2], 'D'))
    ||| (t.len() == 3 && ci_char(t[0], 'N') && ci_char(t[1], 'O') && ci_char(t[2], 'T'))
    ||| (t.len() == 4 && ci_char(t[0], 'N') && ci_char(t[1], 'E') && ci_char(t[2], 'A') && ci_char(
        t[3],
        'R',
    ))
}

/// Whether the sanitizer drops the token `t`.
pub open spec fn is_excluded_token(t: Seq<char>) -> bool {
    is_fts_keyword(t) || t.contains('*') || t.contains(':')
}

/// `t` with every double quote removed.
pub open spec fn strip_dq(t: Seq<char>) -> Seq<char>
    decreases t.len(),
{
    if t.len() == 0 {
        Seq::empty()
    } else if t[0] == '"' {
        strip_dq(t.drop_first())
    } else {
        seq![t[0]] + strip_dq(t.drop_first())
    }
}

pub proof fn lemma_strip_dq_push(t: Seq<char>, c: char)
    ensures
        strip_dq(t.push(c)) == if c == '"' {
            strip_dq(t)
        } else {
            strip_dq(t).push(c)
        },
    decreases t.len(),
{
    if t.len() == 0 {
        assert(t.push(c).len() == 1);
        assert(t.push(c)[0] == c);
        assert(t.push(c).drop_first() =~= Seq::<char>::empty());
        if c == '"' {
            assert(strip_dq(t.push(c)) == strip_dq(Seq::<char>::empty()));
            assert(strip_dq(t) == Seq::<char>::empty());
        } else {
            assert(strip_dq(t.push(c)) == seq![c] + strip_dq(Seq::<char>::empty()));
            assert(strip_dq(t) == Seq::<char>::empty());
            assert(seq![c] + Seq::<char>::empty() =~= Seq::<char>::empty().push(c));
        }
    } else {
        assert(t.push(c).len() == t.len() + 1);
        assert(t.push(c)[0] == t[0]);
        assert(t.push(c).drop_first() =~= t.drop_first().push(c));
        lemma_strip_dq_push(t.drop_first(), c);
        if t[0] == '"' {
            assert(strip_dq(t.push(c)) == strip_dq(t.drop_first().push(c)));
            assert(strip_dq(t) == strip_dq(t.drop_first()));
        } else {
            assert(strip_dq(t.push(c)) == seq![t[0]] + strip_dq(t.drop_first().push(c)));
            assert(strip_dq(t) == seq![t[0]] + strip_dq(t.drop_first()));
            if c != '"' {
                assert(seq![t[0]] + strip_dq(t.drop_first()).push(c) =~= (seq![t[0]] + strip_dq(
                    t.drop_first(),
                )).push(c));
            }
        }
    }
}

/// A kept token as it appears in the sanitized query.
pub open spec fn quoted(t: Seq<char>) -> Seq<char> {
    seq!['"'] + strip_dq(t) + seq!['"']
}

/// The quoted forms of the kept tokens, in order.
pub open spec fn sanitize_tokens(ts: Seq<Seq<char>>) -> Seq<Seq<char>>
    decreases ts.len(),
{
    if ts.len() == 0 {
        Seq::empty()
    } else if is_excluded_token(ts[0]) {
        sanitize_tokens(ts.drop_first())
    } else {
        seq![quoted(ts[0])] + sanitize_tokens(ts.drop_first())
    }
}

pub proof fn lemma_sanitize_tokens_push(ts: Seq<Seq<char>>, t: Seq<char>)
    ensures
        sanitize_tokens(ts.push(t)) == if is_excluded_token(t) {
            sanitize_tokens(ts)
        } else {
            sanitize_tokens(ts).push(quoted(t))
        },
    decreases ts.len(),
{
    if ts.len() == 0 {
        assert(ts.push(t).len() == 1);
        assert(ts.push(t)[0] == t);
        assert(ts.push(t).drop_first() =~= Seq::<Seq<char>>::empty());
        if is_excluded_token(t) {
            assert(sanitize_tokens(ts.push(t)) == sanitize_tokens(Seq::<Seq<char>>::empty()));
            assert(sanitize_tokens(ts) == Seq::<Seq<char>>::empty());
        } else {
            assert(sanitize_tokens(ts.push(t)) == seq![quoted(t)] + sanitize_tokens(Seq::<
                Seq<char>,
            >::empty()));
            assert(sanitize_tokens(ts) == Seq::<Seq<char>>::empty());
            assert(seq![quoted(t)] + Seq::<Seq<char>>::empty() =~= Seq::<
                Seq<char>,
            >::empty().push(quoted(t)));
        }
    } else {
        assert(ts.push(t).len() == ts.len() + 1);
        assert(ts.push(t)[0] == ts[0]);
        assert(ts.push(t).drop_first() =~= ts.drop_first().push(t));
        lemma_sanitize_tokens_push(ts.drop_first(), t);
        if is_excluded_token(ts[0]) {
            assert(sanitize_tokens(ts.push(t)) == sanitize_tokens(ts.drop_first().push(t)));
            assert(sanitize_tokens(ts) == sanitize_tokens(ts.drop_first()));
        } else {
            assert(sanitize_tokens(ts.push(t)) == seq![quoted(ts[0])] + sanitize_tokens(
                ts.drop_first().push(t),
            ));
            assert(sanitize_tokens(ts) == seq![quoted(ts[0])] + sanitize_tokens(ts.drop_first()));
            if !is_excluded_token(t) {
                assert(seq![quoted(ts[0])] + sanitize_tokens(ts.drop_first()).push(quoted(t))
                    =~= (seq![quoted(ts[0])] + sanitize_tokens(ts.drop_first())).push(quoted(t)));
            }
        }
    }
}

/// What `sanitize_fts_query` returns.
pub open spec fn sanitize_spec(q: Seq<char>) -> Seq<char> {
    join_sp(sanitize_tokens(tokens_of(q)))
}

/// Whether a sanitized query is empty, in which case a full-text search
/// returns nothing.
pub open spec fn sanitized_empty(q: Seq<char>) -> bool {
    sanitize_tokens(tokens_of(q)).len() == 0
}

fn ci_char_exec(c: char, up: char) -> (r: bool)
    requires
        up as u32 <= 0x5a,
    ensures
        r == ci_char(c, up),
{
    if char_eq(c, up) {
        return true;
    }
    (c as u32) == (up as u32) + 32
}

fn is_kw_exec(t: &str) -> (r: bool)
    ensures
        r == is_fts_keyword(t@),
{
    let n: usize = t.unicode_len();
    if n == 2 {
        ci_char_exec(t.get_char(0), 'O') && ci_char_exec(t.get_char(1), 'R')
    } else if n == 3 {
        let c0: char = t.get_char(0);
        let c1: char = t.get_char(1);
        let c2: char = t.get_char(2);
        (ci_char_exec(c0, 'A') && ci_char_exec(c1, 'N') && ci_char_exec(c2, 'D')) || (ci_char_exec(
            c0,
            'N',
        ) && ci_char_exec(c1, 'O') && ci_char_exec(c2, 'T'))
    } else if n == 4 {
        ci_char_exec(t.get_char(0), 'N') && ci_char_exec(t.get_char(1), 'E') && ci_char_exec(
            t.get_char(2),
            'A',
        ) && ci_char_exec(t.get_char(3), 'R')
    } else {
        false
    }
}

/// Decides whether the sanitizer drops the token `t`.
pub fn is_excluded_token_exec(t: &str) -> (r: bool)
    ensures
        r == is_excluded_token(t@),
{
    is_kw_exec(t) || contains_char(t, '*') || contains_char(t, ':')
}

/// Sanitizes a raw query for the full-text index: drops operator tokens
/// and tokens with `*` or `:`, strips embedded quotes, and quotes what
/// is left.
pub fn sanitize_fts_query(q: &str) -> (r: String)
    ensures
        r@ == sanitize_spec(q@),
{
    let toks: Vec<String> = tokenize(q);
    let ghost ts = tokens_of(q@);
    let mut out = String::new();
    let mut first: bool = true;
    let mut idx: usize = 0;
    proof {
        assert(ts.take(0) =~= Seq::<Seq<char>>::empty());
    }
    while idx < toks.len()
        invariant
            idx <= toks.len(),
            toks@.map_values(|t: String| t@) == ts,
            out@ == join_sp(sanitize_tokens(ts.take(idx as int))),
            first == (sanitize_tokens(ts.take(idx as int)).len() == 0),
        decreases toks.len() - idx,
    {
        let t: &String = &toks[idx];
        proof {
            assert(t@ == ts[idx as int]);
            lemma_sanitize_tokens_push(ts.take(idx as int), ts[idx as int]);
            assert(ts.take(idx + 1) =~= ts.take(idx as int).push(ts[idx as int]));
        }
        if !is_excluded_token_exec(t.as_str()) {
            let tn: usize = t.as_str().unicode_len();
            let mut qt = String::new();
            push_char(&mut qt, '"');
            let mut k: usize = 0;
            proof {
                assert(t@.take(0) =~= Seq::<char>::empty());
                assert(qt@ =~= seq!['"'] + strip_dq(t@.take(0)));
            }
            while k < tn
                invariant
                    k <= tn,
                    tn == t@.len(),
                    qt@ == seq!['"'] + strip_dq(t@.take(k as int)),
                decreases tn - k,
            {
                let c: char = t.as_str().get_char(k);
                proof {
                    lemma_strip_dq_push(t@.take(k as int), t@[k as int]);
                    assert(t@.take(k + 1) =~= t@.take(k as int).push(t@[k as int]));
                }
                if !char_eq(c, '"') {
                    push_char(&mut qt, c);
                }
                k = k + 1;
            }
            push_char(&mut qt, '"');
            proof {
                assert(t@.take(tn as int) =~= t@);
                assert(qt@ =~= quoted(t@));
            }
            if first {
                out.append(qt.as_str());
                first = false;
            } else {
                out.append(" ");
                out.append(qt.as_str());
            }
            proof {
                lemma_join_push(sanitize_tokens(ts.take(idx as int)), quoted(t@));
                reveal_strlit(" ");
                assert(" "@ =~= seq![' ']);
            }
        }
        idx = idx + 1;
    }
    proof {
        assert(ts.take(toks@.len() as int) =~= ts);
    }
    out
}

// ---------------------------------------------------------------------
// The lexical match model: which notes a sanitized query matches.
// ---------------------------------------------------------------------

/// Characters the lexical index treats as part of a word: ASCII
/// alphanumerics, and everything outside ASCII.
pub open spec fn is_word_char(c: char) -> bool {
    let u = c as u32;
    (0x30 <= u && u <= 0x39) || (0x41 <= u && u <= 0x5a) || (0x61 <= u && u <= 0x7a) || u >= 0x80
}

pub fn is_word_char_exec(c: char) -> (r: bool)
    ensures
        r == is_word_char(c),
{
    let u: u32 = c as u32;
    (0x30 <= u && u <= 0x39) || (0x41 <= u && u <= 0x5a) || (0x61 <= u && u <= 0x7a) || u >= 0x80
}

/// Length of the leading run of word characters.
pub open spec fn word_run_len(s: Seq<char>) -> nat
    decreases s.len(),
{
    if s.len() == 0 || !is_word_char(s[0]) {
        0
    } else {
        1 + word_run_len(s.drop_first())
    }
}

proof fn lemma_word_run_le(s: Seq<char>)
    ensures
        word_run_len(s) <= s.len(),
    decreases s.len(),
{
    if s.len() > 0 && is_word_char(s[0]) {
        lemma_word_run_le(s.drop_first());
    }
}

proof fn lemma_word_run_char(s: Seq<char>, m: int)
    requires
        0 <= m <= s.len(),
        forall|k: int| 0 <= k < m ==> is_word_char(s[k]),
        m == s.len() || !is_word_char(s[m]),
    ensures
        word_run_len(s) == m,
    decreases m,
{
    if m > 0 {
        assert(is_word_char(s[0]));
        assert forall|k: int| 0 <= k < m - 1 implies is_word_char(s.drop_first()[k]) by {
            assert(s.drop_first()[k] == s[k + 1]);
        }
        if m - 1 < s.drop_first().len() {
            assert(s.drop_first()[m - 1] == s[m]);
        }
        lemma_word_run_char(s.drop_first(), m - 1);
    }
}

/// The maximal word-character runs of `s`, in order: what the lexical
/// index derives from a column.
pub open spec fn word_runs(s: Seq<char>) -> Seq<Seq<char>>
    decreases s.len(),
    via word_runs_dec
{
    if s.len() == 0 {
        Seq::empty()
    } else if !is_word_char(s[0]) {
        word_runs(s.drop_first())
    } else {
        seq![s.take(word_run_len(s) as int)] + word_runs(s.skip(word_run_len(s) as int))
    }
}

#[via_fn]
proof fn word_runs_dec(s: Seq<char>) {
    if s.len() > 0 && is_word_char(s[0]) {
        lemma_word_run_le(s);
    }
}

proof fn lemma_word_runs_skip(s: Seq<char>, i: int)
    requires
        0 <= i < s.len(),
        !is_word_char(s[i]),
    ensures
        word_runs(s.skip(i)) == word_runs(s.skip(i + 1)),
{
    assert(s.skip(i)[0] == s[i]);
    assert(s.skip(i).drop_first() =~= s.skip(i + 1));
}

proof fn lemma_word_runs_head(s: Seq<char>, start: int, j: int)
    requires
        0 <= start < s.len(),
        is_word_char(s[start]),
        start < j <= s.len(),
        forall|k: int| start <= k < j ==> is_word_char(s[k]),
        j == s.len() || !is_word_char(s[j]),
    ensures
        word_runs(s.skip(start)) == seq![s.subrange(start, j)] + word_runs(s.skip(j)),
{
    let t = s.skip(start);
    assert(t[0] == s[start]);
    assert forall|k: int| 0 <= k < j - start implies is_word_char(t[k]) by {
        assert(t[k] == s[start + k]);
    }
    if j - start < t.len() {
        assert(t[j - start] == s[j]);
    }
    lemma_word_run_char(t, j - start);
    assert(t.take(j - start) =~= s.subrange(start, j));
    assert(t.skip(j - start) =~= s.skip(j));
}

/// Splits `s` into its maximal word-character runs.
pub fn word_runs_exec(s: &str) -> (r: Vec<String>)
    ensures
        r@.map_values(|t: String| t@) == word_runs(s@),
{
    let n: usize = s.unicode_len();
    let mut out: Vec<String> = Vec::new();
    let mut i: usize = 0;
    proof {
        assert(s@.skip(0) =~= s@);
        assert(out@.map_values(|t: String| t@) + word_runs(s@) =~= word_runs(s@));
    }
    while i < n
        invariant
            i <= n,
            n == s@.len(),
            word_runs(s@) == out@.map_values(|t: String| t@) + word_runs(s@.skip(i as int)),
        decreases n - i,
    {
        let c: char = s.get_char(i);
        if !is_word_char_exec(c) {
            proof {
                lemma_word_runs_skip(s@, i as int);
            }
            i = i + 1;
        } else {
            let start: usize = i;
            let mut j: usize = i + 1;
            while j < n && word_at(s, j)
                invariant
                    start < j <= n,
                    n == s@.len(),
                    forall|k: int| start <= k < j ==> is_word_char(s@[k]),
                decreases n - j,
            {
                j = j + 1;
            }
            let tok: String = String::from_str(s.substring_char(start, j));
            out.push(tok);
            proof {
                lemma_word_runs_head(s@, start as int, j as int);
                assert(out@.map_values(|t: String| t@) =~= out@.drop_last().map_values(
                    |t: String| t@,
                ).push(s@.subrange(start as int, j as int)));
                assert(out@.map_values(|t: String| t@) + word_runs(s@.skip(j as int))
                    =~= out@.drop_last().map_values(|t: String| t@) + (seq![
                    s@.subrange(start as int, j as int),
                ] + word_runs(s@.skip(j as int))));
            }
            i = j;
        }
    }
    proof {
        assert(s@.skip(n as int) =~= Seq::<char>::empty());
        assert(out@.map_values(|t: String| t@) + word_runs(s@.skip(n as int)) =~= out@.map_values(
            |t: String| t@,
        ));
    }
    out
}

fn word_at(s: &str, j: usize) -> (r: bool)
    requires
        j < s@.len(),
    ensures
        r == is_word_char(s@[j as int]),
{
    is_word_char_exec(s.get_char(j))
}

/// The ASCII-lowered scalar value of a character; comparison under this
/// map is the model's case folding.
pub open spec fn lower_u32(u: u32) -> u32 {
    if 0x41 <= u && u <= 0x5a {
        (u + 32) as u32
    } else {
        u
    }
}

/// Case-insensitive equality of two words.
pub open spec fn eq_ci(a: Seq<char>, b: Seq<char>) -> bool {
    a.len() == b.len() && forall|i: int|
        0 <= i < a.len() ==> lower_u32(a[i] as u32) == lower_u32(b[i] as u32)
}

/// Decides `eq_ci`.
pub fn eq_ci_exec(a: &str, b: &str) -> (r: bool)
    ensures
        r == eq_ci(a@, b@),
{
    let an: usize = a.unicode_len();
    let bn: usize = b.unicode_len();
    if an != bn {
        return false;
    }
    let mut i: usize = 0;
    while i < an
        invariant
            i <= an,
            an == a@.len(),
            bn == b@.len(),
            an == bn,
            forall|k: int| 0 <= k < i ==> lower_u32(a@[k] as u32) == lower_u32(b@[k] as u32),
        decreases an - i,
    {
        let ua: u32 = a.get_char(i) as u32;
        let ub: u32 = b.get_char(i) as u32;
        let la: u32 = if 0x41 <= ua && ua <= 0x5a {
            ua + 32
        } else {
            ua
        };
        let lb: u32 = if 0x41 <= ub && ub <= 0x5a {
            ub + 32
        } else {
            ub
        };
        if la != lb {
            return false;
        }
        i = i + 1;
    }
    true
}

/// Whether some word of `ws` equals `w` case-insensitively.
pub open spec fn contains_ci(ws: Seq<Seq<char>>, w: Seq<char>) -> bool {
    exists|i: int| 0 <= i < ws.len() && eq_ci(ws[i], w)
}

fn contains_ci_exec(ws: &Vec<String>, w: &str) -> (r: bool)
    ensures
        r == contains_ci(ws@.map_values(|t: String| t@), w@),
{
    let ghost v = ws@.map_values(|t: String| t@);
    let mut i: usize = 0;
    while i < ws.len()
        invariant
            i <= ws.len(),
            v == ws@.map_values(|t: String| t@),
            forall|k: int| 0 <= k < i ==> !eq_ci(v[k], w@),
        decreases ws.len() - i,
    {
        if eq_ci_exec(ws[i].as_str(), w) {
            proof {
                assert(v[i as int] == ws@[i as int]@);
            }
            return true;
        }
        proof {
            assert(v[i as int] == ws@[i as int]@);
        }
        i = i + 1;
    }
    false
}

/// A phrase matches a column when each of its words occurs in the
/// column, compared case-insensitively. Word adjacency is not modelled.
pub open spec fn phrase_matches_col(phrase: Seq<char>, col: Seq<char>) -> bool {
    forall|i: int|
        0 <= i < word_runs(phrase).len() ==> contains_ci(word_runs(col), word_runs(phrase)[i])
}

/// A note matches a query when every kept token matches its title or its
/// content.
pub open spec fn note_matches(q: Seq<char>, title: Seq<char>, content: Seq<char>) -> bool {
    forall|i: int|
        0 <= i < tokens_of(q).len() && !is_excluded_token(tokens_of(q)[i]) ==> {
            let ph = strip_dq(tokens_of(q)[i]);
            phrase_matches_col(ph, title) || phrase_matches_col(ph, content)
        }
}

/// View of a vector of words.
pub open spec fn seq_of_runs(v: Seq<String>) -> Seq<Seq<char>> {
    v.map_values(|t: String| t@)
}

/// Decides `note_matches`.
pub fn note_matches_exec(q: &str, title: &str, content: &str) -> (r: bool)
    ensures
        r == note_matches(q@, title@, content@),
{
    let toks: Vec<String> = tokenize(q);
    let ghost ts = tokens_of(q@);
    let title_runs: Vec<String> = word_runs_exec(title);
    let content_runs: Vec<String> = word_runs_exec(content);
    let mut i: usize = 0;
    while i < toks.len()
        invariant
            i <= toks.len(),
            ts == tokens_of(q@),
            toks@.map_values(|t: String| t@) == ts,
            seq_of_runs(title_runs@) == word_runs(title@),
            seq_of_runs(content_runs@) == word_runs(content@),
            forall|k: int|
                0 <= k < i && !is_excluded_token(ts[k]) ==> {
                    let ph = strip_dq(ts[k]);
                    phrase_matches_col(ph, title@) || phrase_matches_col(ph, content@)
                },
        decreases toks.len() - i,
    {
        let t: &String = &toks[i];
        proof {
            assert(t@ == ts[i as int]);
        }
        if !is_excluded_token_exec(t.as_str()) {
            // the phrase is the token with embedded quotes stripped
            let tn: usize = t.as_str().unicode_len();
            let mut ph = String::new();
            let mut k: usize = 0;
            proof {
                assert(t@.take(0) =~= Seq::<char>::empty());
                assert(ph@ =~= strip_dq(t@.take(0)));
            }
            while k < tn
                invariant
                    k <= tn,
                    tn == t@.len(),
                    ph@ == strip_dq(t@.take(k as int)),
                decreases tn - k,
            {
                let c: char = t.as_str().get_char(k);
                proof {
                    lemma_strip_dq_push(t@.take(k as int), t@[k as int]);
                    assert(t@.take(k + 1) =~= t@.take(k as int).push(t@[k as int]));
                }
                if !char_eq(c, '"') {
                    push_char(&mut ph, c);
                }
                k = k + 1;
            }
            proof {
                assert(t@.take(tn as int) =~= t@);
            }
            let ph_runs: Vec<String> = word_runs_exec(ph.as_str());
            let in_title: bool = all_runs_in(&ph_runs, &title_runs);
            proof {
                assert(seq_of_runs(ph_runs@) == word_runs(ph@));
            }
            if !in_title {
                let in_content: bool = all_runs_in(&ph_runs, &content_runs);
                if !in_content {
                    proof {
                        let bad = i as int;
                        assert(tokens_of(q@)[bad] == t@);
                        assert(!phrase_matches_col(strip_dq(t@), title@));
                        assert(!phrase_matches_col(strip_dq(t@), content@));
                        assert(!note_matches(q@, title@, content@));
                    }
                    return false;
                }
            }
        }
        i = i + 1;
    }
    true
}

/// Whether every word of `ph_runs` occurs in `col_runs`,
/// case-insensitively.
fn all_runs_in(ph_runs: &Vec<String>, col_runs: &Vec<String>) -> (r: bool)
    ensures
        r == forall|i: int|
            0 <= i < ph_runs@.len() ==> contains_ci(
                seq_of_runs(col_runs@),
                seq_of_runs(ph_runs@)[i],
            ),
{
    let mut i: usize = 0;
    while i < ph_runs.len()
        invariant
            i <= ph_runs.len(),
            forall|k: int|
                0 <= k < i ==> contains_ci(seq_of_runs(col_runs@), seq_of_runs(ph_runs@)[k]),
        decreases ph_runs.len() - i,
    {
        proof {
            assert(seq_of_runs(ph_runs@)[i as int] == ph_runs@[i as int]@);
        }
        if !contains_ci_exec(col_runs, ph_runs[i].as_str()) {
            return false;
        }
        i = i + 1;
    }
    true
}

} // verus!
