//! The snippet rule shared by note lists, search results and latent links:
//! take the first 250 characters, strip markdown heading and emphasis
//! markers line by line, join the lines with single spaces, and truncate
//! the result to at most 200 bytes, with an ellipsis when it was cut.

use vstd::prelude::*;
use crate::chars::{byte_len, byte_len_exceeds, push_char, utf8_char_len};
use crate::text::{trim, trim_spec};

verus! {

/// Position of the first newline, or the length if there is none.
pub open spec fn first_nl(s: Seq<char>) -> nat
    decreases s.len(),
{
    if s.len() == 0 || s[0] == '\n' {
        0
    } else {
        1 + first_nl(s.drop_first())
    }
}

proof fn lemma_first_nl_le(s: Seq<char>)
    ensures
        first_nl(s) <= s.len(),
    decreases s.len(),
{
    if s.len() > 0 && s[0] != '\n' {
        lemma_first_nl_le(s.drop_first());
    }
}

proof fn lemma_first_nl_char(s: Seq<char>, m: int)
    requires
        0 <= m <= s.len(),
        forall|k: int| 0 <= k < m ==> s[k] != '\n',
        m == s.len() || s[m] == '\n',
    ensures
        first_nl(s) == m,
    decreases m,
{
    if m > 0 {
        assert(s[0] != '\n');
        assert forall|k: int| 0 <= k < m - 1 implies s.drop_first()[k] != '\n' by {
            assert(s.drop_first()[k] == s[k + 1]);
        }
        if m - 1 < s.drop_first().len() {
            assert(s.drop_first()[m - 1] == s[m]);
        }
        lemma_first_nl_char(s.drop_first(), m - 1);
    }
}

/// A line with one trailing carriage return removed, as `str::lines` does.
pub open spec fn strip_cr(t: Seq<char>) -> Seq<char> {
    if t.len() > 0 && t.last() == '\r' {
        t.drop_last()
    } else {
        t
    }
}

/// The lines of `s`, split at newlines, without a final empty line.
pub open spec fn split_lines(s: Seq<char>) -> Seq<Seq<char>>
    decreases s.len(),
    via split_lines_dec
{
    if s.len() == 0 {
        Seq::empty()
    } else if first_nl(s) == s.len() {
        seq![strip_cr(s)]
    } else {
        seq![strip_cr(s.take(first_nl(s) as int))] + split_lines(s.skip(first_nl(s) as int + 1))
    }
}

#[via_fn]
proof fn split_lines_dec(s: Seq<char>) {
    lemma_first_nl_le(s);
}

/// Length of the leading run of `#` characters.
pub open spec fn hash_run_len(t: Seq<char>) -> nat
    decreases t.len(),
{
    if t.len() == 0 || t[0] != '#' {
        0
    } else {
        1 + hash_run_len(t.drop_first())
    }
}

proof fn lemma_hash_run_le(t: Seq<char>)
    ensures
        hash_run_len(t) <= t.len(),
    decreases t.len(),
{
    if t.len() > 0 && t[0] == '#' {
        lemma_hash_run_le(t.drop_first());
    }
}

proof fn lemma_hash_run_char(t: Seq<char>, m: int)
    requires
        0 <= m <= t.len(),
        forall|k: int| 0 <= k < m ==> t[k] == '#',
        m == t.len() || t[m] != '#',
    ensures
        hash_run_len(t) == m,
    decreases m,
{
    if m > 0 {
        assert(t[0] == '#');
        assert forall|k: int| 0 <= k < m - 1 implies t.drop_first()[k] == '#' by {
            assert(t.drop_first()[k] == t[k + 1]);
        }
        if m - 1 < t.drop_first().len() {
            assert(t.drop_first()[m - 1] == t[m]);
        }
        lemma_hash_run_char(t.drop_first(), m - 1);
    }
}

/// `t` without any asterisks, which removes both `**` and `*` emphasis
/// markers.
pub open spec fn remove_stars(t: Seq<char>) -> Seq<char>
    decreases t.len(),
{
    if t.len() == 0 {
        Seq::empty()
    } else if t[0] == '*' {
        remove_stars(t.drop_first())
    } else {
        seq![t[0]] + remove_stars(t.drop_first())
    }
}

proof fn lemma_remove_stars_push(t: Seq<char>, c: char)
    ensures
        remove_stars(t.push(c)) == if c == '*' {
            remove_stars(t)
        } else {
            remove_stars(t).push(c)
        },
    decreases t.len(),
{
    if t.len() == 0 {
        assert(t.push(c).len() == 1);
        assert(t.push(c)[0] == c);
        assert(t.push(c).drop_first() =~= Seq::<char>::empty());
        if c == '*' {
            assert(remove_stars(t.push(c)) == remove_stars(Seq::<char>::empty()));
            assert(remove_stars(t) == Seq::<char>::empty());
        } else {
            assert(remove_stars(t.push(c)) == seq![c] + remove_stars(Seq::<char>::empty()));
            assert(remove_stars(t) == Seq::<char>::empty());
            assert(seq![c] + Seq::<char>::empty() =~= Seq::<char>::empty().push(c));
        }
    } else {
        assert(t.push(c).len() == t.len() + 1);
        assert(t.push(c)[0] == t[0]);
        assert(t.push(c).drop_first() =~= t.drop_first().push(c));
        lemma_remove_stars_push(t.drop_first(), c);
        if t[0] == '*' {
            assert(remove_stars(t.push(c)) == remove_stars(t.drop_first().push(c)));
            assert(remove_stars(t) == remove_stars(t.drop_first()));
        } else {
            assert(remove_stars(t.push(c)) == seq![t[0]] + remove_stars(t.drop_first().push(c)));
            assert(remove_stars(t) == seq![t[0]] + remove_stars(t.drop_first()));
            if c != '*' {
                assert(seq![t[0]] + remove_stars(t.drop_first()).push(c) =~= (seq![t[0]]
                    + remove_stars(t.drop_first())).push(c));
            }
        }
    }
}

/// One line of the snippet: trimmed, leading `#` markers stripped, trimmed
/// again, and emphasis asterisks removed.
pub open spec fn clean_line(l: Seq<char>) -> Seq<char> {
    remove_stars(trim_spec(trim_spec(l).skip(hash_run_len(trim_spec(l)) as int)))
}

/// Lines joined with single spaces.
pub open spec fn join_sp(ls: Seq<Seq<char>>) -> Seq<char>
    decreases ls.len(),
{
    if ls.len() == 0 {
        Seq::empty()
    } else if ls.len() == 1 {
        ls[0]
    } else {
        ls[0] + seq![' '] + join_sp(ls.drop_first())
    }
}

pub proof fn lemma_join_push(ls: Seq<Seq<char>>, l: Seq<char>)
    ensures
        join_sp(ls.push(l)) == if ls.len() == 0 {
            l
        } else {
            join_sp(ls) + seq![' '] + l
        },
    decreases ls.len(),
{
    if ls.len() == 0 {
        assert(ls.push(l)[0] == l);
    } else {
        assert(ls.push(l)[0] == ls[0]);
        assert(ls.push(l).drop_first() =~= ls.drop_first().push(l));
        lemma_join_push(ls.drop_first(), l);
        if ls.len() == 1 {
            assert(join_sp(ls.push(l)) == ls[0] + seq![' '] + l);
            assert(join_sp(ls) == ls[0]);
        } else {
            assert(join_sp(ls.push(l)) == ls[0] + seq![' '] + (join_sp(ls.drop_first()) + seq![' ']
                + l));
            assert(ls[0] + seq![' '] + (join_sp(ls.drop_first()) + seq![' '] + l) =~= (ls[0]
                + seq![' '] + join_sp(ls.drop_first())) + seq![' '] + l);
        }
    }
}

/// Number of leading characters of `t` whose encodings fit in `budget`
/// bytes.
pub open spec fn cut_len(t: Seq<char>, budget: int) -> nat
    decreases t.len(),
{
    if t.len() == 0 || utf8_char_len(t[0]) > budget {
        0
    } else {
        1 + cut_len(t.drop_first(), budget - utf8_char_len(t[0]))
    }
}

proof fn lemma_cut_char(t: Seq<char>, budget: int, m: int)
    requires
        0 <= m <= t.len(),
        byte_len(t.take(m)) <= budget,
        m == t.len() || byte_len(t.take(m)) + utf8_char_len(t[m]) > budget,
    ensures
        cut_len(t, budget) == m,
    decreases m,
{
    if m == 0 {
        if t.len() > 0 {
            assert(byte_len(t.take(0)) == 0);
            assert(utf8_char_len(t[0]) > budget);
        }
    } else {
        let w0 = utf8_char_len(t[0]);
        assert(t.take(m)[0] == t[0]);
        assert(t.take(m).drop_first() =~= t.drop_first().take(m - 1));
        assert(byte_len(t.take(m)) == w0 + byte_len(t.drop_first().take(m - 1)));
        crate::chars::lemma_byte_len_bounds(t.drop_first().take(m - 1));
        assert(w0 <= budget);
        if m < t.len() {
            assert(t.drop_first()[m - 1] == t[m]);
        }
        lemma_cut_char(t.drop_first(), budget - w0, m - 1);
    }
}

/// Largest number of bytes a snippet may take before the ellipsis.
pub const SNIPPET_MAX_BYTES: usize = 200;

/// Number of characters of the content a snippet is built from.
pub const SNIPPET_TAKE_CHARS: usize = 250;

/// What `make_snippet` returns.
pub open spec fn snippet_spec(s: Seq<char>) -> Seq<char> {
    let p = if s.len() <= SNIPPET_TAKE_CHARS as int {
        s
    } else {
        s.take(SNIPPET_TAKE_CHARS as int)
    };
    let j = join_sp(split_lines(p).map_values(|l: Seq<char>| clean_line(l)));
    if byte_len(j) <= SNIPPET_MAX_BYTES as int {
        j
    } else {
        j.take(cut_len(j, SNIPPET_MAX_BYTES as int) as int) + "..."@
    }
}

fn nl_at(s: &str, j: usize) -> (r: bool)
    requires
        j < s@.len(),
    ensures
        r == (s@[j as int] == '\n'),
{
    let c: char = s.get_char(j);
    let u: u32 = c as u32;
    proof {
        if u == 0x0a {
            crate::chars::lemma_char_eq_by_scalar(c, '\n');
        }
        if c == '\n' {
            assert(c as u32 == 0x0a);
        }
    }
    u == 0x0a
}

/// Cleans one raw line of the snippet.
fn clean_line_exec(line: &str) -> (r: String)
    ensures
        r@ == clean_line(line@),
{
    let t1: String = trim(line);
    let t1n: usize = t1.as_str().unicode_len();
    let mut h: usize = 0;
    while h < t1n && hash_at(t1.as_str(), h)
        invariant
            h <= t1n,
            t1n == t1@.len(),
            forall|k: int| 0 <= k < h ==> t1@[k] == '#',
        decreases t1n - h,
    {
        h = h + 1;
    }
    proof {
        lemma_hash_run_char(t1@, h as int);
    }
    let t2: String = trim(t1.as_str().substring_char(h, t1n));
    proof {
        assert(t1@.subrange(h as int, t1n as int) =~= t1@.skip(h as int));
    }
    let t2n: usize = t2.as_str().unicode_len();
    let mut out = String::new();
    let mut k: usize = 0;
    proof {
        assert(t2@.take(0) =~= Seq::<char>::empty());
    }
    while k < t2n
        invariant
            k <= t2n,
            t2n == t2@.len(),
            out@ == remove_stars(t2@.take(k as int)),
        decreases t2n - k,
    {
        let c: char = t2.as_str().get_char(k);
        proof {
            lemma_remove_stars_push(t2@.take(k as int), t2@[k as int]);
            assert(t2@.take(k + 1) =~= t2@.take(k as int).push(t2@[k as int]));
        }
        if !star_char(c) {
            push_char(&mut out, c);
        }
        k = k + 1;
    }
    proof {
        assert(t2@.take(t2n as int) =~= t2@);
    }
    out
}

fn hash_at(s: &str, j: usize) -> (r: bool)
    requires
        j < s@.len(),
    ensures
        r == (s@[j as int] == '#'),
{
    let c: char = s.get_char(j);
    let u: u32 = c as u32;
    proof {
        if u == 0x23 {
            crate::chars::lemma_char_eq_by_scalar(c, '#');
        }
        if c == '#' {
            assert(c as u32 == 0x23);
        }
    }
    u == 0x23
}

fn star_char(c: char) -> (r: bool)
    ensures
        r == (c == '*'),
{
    let u: u32 = c as u32;
    proof {
        if u == 0x2a {
            crate::chars::lemma_char_eq_by_scalar(c, '*');
        }
        if c == '*' {
            assert(c as u32 == 0x2a);
        }
    }
    u == 0x2a
}

proof fn lemma_lines_head(s: Seq<char>, i: int, q: int)
    requires
        0 <= i < s.len(),
        i <= q <= s.len(),
        forall|k: int| i <= k < q ==> s[k] != '\n',
        q == s.len() || s[q] == '\n',
    ensures
        split_lines(s.skip(i)) == seq![strip_cr(s.subrange(i, q))] + (if q == s.len() {
            Seq::<Seq<char>>::empty()
        } else {
            split_lines(s.skip(q + 1))
        }),
{
    let t = s.skip(i);
    assert forall|k: int| 0 <= k < q - i implies t[k] != '\n' by {
        assert(t[k] == s[i + k]);
    }
    if q - i < t.len() {
        assert(t[q - i] == s[q]);
    }
    lemma_first_nl_char(t, q - i);
    if q == s.len() {
        assert(t =~= s.subrange(i, q));
        assert(seq![strip_cr(t)] =~= seq![strip_cr(s.subrange(i, q))] + Seq::<
            Seq<char>,
        >::empty());
    } else {
        assert(t.take(q - i) =~= s.subrange(i, q));
        assert(t.skip(q - i + 1) =~= s.skip(q + 1));
    }
}

fn width_of(c: char) -> (w: usize)
    ensures
        w == utf8_char_len(c),
{
    let u: u32 = c as u32;
    if u < 0x80 {
        1
    } else if u < 0x800 {
        2
    } else if u < 0x10000 {
        3
    } else {
        4
    }
}

fn fits_next(s: &str, j: usize, sum: usize) -> (r: bool)
    requires
        j < s@.len(),
        sum <= SNIPPET_MAX_BYTES,
    ensures
        r == (sum + utf8_char_len(s@[j as int]) <= SNIPPET_MAX_BYTES as int),
{
    let w: usize = width_of(s.get_char(j));
    sum + w <= SNIPPET_MAX_BYTES
}

/// Builds the display snippet of a note's content.
pub fn make_snippet(content: &str) -> (r: String)
    ensures
        r@ == snippet_spec(content@),
{
    let n: usize = content.unicode_len();
    let pn: usize = if n > SNIPPET_TAKE_CHARS {
        SNIPPET_TAKE_CHARS
    } else {
        n
    };
    let p: &str = content.substring_char(0, pn);
    proof {
        if n <= SNIPPET_TAKE_CHARS {
            assert(content@.subrange(0, pn as int) =~= content@);
        } else {
            assert(content@.subrange(0, pn as int) =~= content@.take(SNIPPET_TAKE_CHARS as int));
        }
    }
    let mut out = String::new();
    let mut first: bool = true;
    let mut i: usize = 0;
    let ghost mut done: Seq<Seq<char>> = Seq::empty();
    proof {
        assert(p@.skip(0) =~= p@);
        assert(done + split_lines(p@) =~= split_lines(p@));
    }
    while i < pn
        invariant
            i <= pn,
            pn == p@.len(),
            split_lines(p@) == done + split_lines(p@.skip(i as int)),
            out@ == join_sp(done.map_values(|l: Seq<char>| clean_line(l))),
            first == (done.len() == 0),
        decreases pn - i,
    {
        let start: usize = i;
        let mut q: usize = i;
        while q < pn && !nl_at(p, q)
            invariant
                start <= q <= pn,
                pn == p@.len(),
                forall|k: int| start <= k < q ==> p@[k] != '\n',
            decreases pn - q,
        {
            q = q + 1;
        }
        let has_cr: bool = q > start && cr_at(p, q - 1);
        let line_end: usize = if has_cr {
            q - 1
        } else {
            q
        };
        let raw: &str = p.substring_char(start, line_end);
        proof {
            if has_cr {
                assert(p@.subrange(start as int, line_end as int) =~= p@.subrange(
                    start as int,
                    q as int,
                ).drop_last());
            }
            assert(raw@ == strip_cr(p@.subrange(start as int, q as int)));
        }
        let cl: String = clean_line_exec(raw);
        if first {
            out.append(cl.as_str());
            first = false;
        } else {
            out.append(" ");
            out.append(cl.as_str());
        }
        proof {
            lemma_lines_head(p@, start as int, q as int);
            let f = |l: Seq<char>| clean_line(l);
            lemma_join_push(done.map_values(f), clean_line(raw@));
            assert(done.push(raw@).map_values(f) =~= done.map_values(f).push(clean_line(raw@)));
            reveal_strlit(" ");
            assert(" "@ =~= seq![' ']);
            done = done.push(raw@);
        }
        if q == pn {
            i = pn;
            proof {
                assert(p@.skip(pn as int) =~= Seq::<char>::empty());
                assert(split_lines(p@) =~= done + split_lines(p@.skip(pn as int)));
            }
        } else {
            i = q + 1;
            proof {
                assert(split_lines(p@) =~= done + split_lines(p@.skip(i as int)));
            }
        }
    }
    proof {
        assert(p@.skip(pn as int) =~= Seq::<char>::empty());
        assert(done + split_lines(p@.skip(pn as int)) =~= done);
    }
    if !byte_len_exceeds(out.as_str(), SNIPPET_MAX_BYTES) {
        return out;
    }
    let on: usize = out.as_str().unicode_len();
    let mut ci: usize = 0;
    let mut sum: usize = 0;
    proof {
        assert(out@.take(0) =~= Seq::<char>::empty());
    }
    while ci < on && fits_next(out.as_str(), ci, sum)
        invariant
            ci <= on,
            on == out@.len(),
            sum == byte_len(out@.take(ci as int)),
            sum <= SNIPPET_MAX_BYTES,
        decreases on - ci,
    {
        let w: usize = width_of(out.as_str().get_char(ci));
        proof {
            crate::chars::lemma_byte_len_push(out@.take(ci as int), out@[ci as int]);
            assert(out@.take(ci + 1) =~= out@.take(ci as int).push(out@[ci as int]));
        }
        sum = sum + w;
        ci = ci + 1;
    }
    proof {
        if ci == on {
            assert(out@.take(on as int) =~= out@);
        }
        lemma_cut_char(out@, SNIPPET_MAX_BYTES as int, ci as int);
    }
    let mut res: String = String::from_str(out.as_str().substring_char(0, ci));
    res.append("...");
    res
}

fn cr_at(s: &str, j: usize) -> (r: bool)
    requires
        j < s@.len(),
    ensures
        r == (s@[j as int] == '\r'),
{
    let c: char = s.get_char(j);
    let u: u32 = c as u32;
    proof {
        if u == 0x0d {
            crate::chars::lemma_char_eq_by_scalar(c, '\r');
        }
        if c == '\r' {
            assert(c as u32 == 0x0d);
        }
    }
    u == 0x0d
}

} // verus!
