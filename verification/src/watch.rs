//! The decision side of the filesystem watcher: which paths are
//! watched markdown files, whether a path stays under the watched root,
//! how a scan's file list is filtered and ordered, how front matter is
//! split from a note file, and what to do for one changed path. The
//! watcher loop itself — the OS watcher, the debounce timer, the reads
//! — runs in the host and calls in here for every decision.

use vstd::prelude::*;
use crate::chars::{char_eq, lex_le, str_eq, str_lt};
use crate::store::Note;
use crate::text::{trim_spec, ws_run_len};

verus! {

/// Index right after the last `/`, or zero.
pub open spec fn file_name_start(p: Seq<char>) -> int
    decreases p.len(),
{
    if p.len() == 0 {
        0
    } else if p.last() == '/' {
        p.len() as int
    } else {
        file_name_start(p.drop_last())
    }
}

proof fn lemma_file_name_start_le(p: Seq<char>)
    ensures
        0 <= file_name_start(p) <= p.len(),
    decreases p.len(),
{
    if p.len() > 0 && p.last() != '/' {
        lemma_file_name_start_le(p.drop_last());
    }
}

proof fn lemma_file_name_start_char(p: Seq<char>, m: int)
    requires
        0 <= m <= p.len(),
        forall|k: int| m <= k < p.len() ==> p[k] != '/',
        m == 0 || p[m - 1] == '/',
    ensures
        file_name_start(p) == m,
    decreases p.len(),
{
    if p.len() > 0 {
        if p.last() == '/' {
            assert(m == p.len());
        } else {
            assert(m < p.len());
            assert forall|k: int| m <= k < p.drop_last().len() implies p.drop_last()[k]
                != '/' by {
                assert(p.drop_last()[k] == p[k]);
            }
            if m > 0 {
                assert(p.drop_last()[m - 1] == p[m - 1]);
            }
            lemma_file_name_start_char(p.drop_last(), m);
        }
    }
}

/// The file name: what follows the last `/`.
pub open spec fn file_name_of(p: Seq<char>) -> Seq<char> {
    p.skip(file_name_start(p))
}

/// Index of the last `.`, or `-1`.
pub open spec fn last_dot_in(name: Seq<char>) -> int
    decreases name.len(),
{
    if name.len() == 0 {
        -1
    } else if name.last() == '.' {
        name.len() - 1
    } else {
        last_dot_in(name.drop_last())
    }
}

proof fn lemma_last_dot_le(name: Seq<char>)
    ensures
        -1 <= last_dot_in(name) < name.len(),
    decreases name.len(),
{
    if name.len() > 0 && name.last() != '.' {
        lemma_last_dot_le(name.drop_last());
    }
}

proof fn lemma_last_dot_char(name: Seq<char>, d: int)
    requires
        -1 <= d < name.len(),
        forall|k: int| d < k < name.len() ==> name[k] != '.',
        d == -1 || name[d] == '.',
    ensures
        last_dot_in(name) == d,
    decreases name.len(),
{
    if name.len() > 0 {
        if name.last() == '.' {
            assert(d == name.len() - 1);
        } else {
            assert(d < name.len() - 1);
            assert forall|k: int| d < k < name.drop_last().len() implies name.drop_last()[k]
                != '.' by {
                assert(name.drop_last()[k] == name[k]);
            }
            if d >= 0 {
                assert(name.drop_last()[d] == name[d]);
            }
            lemma_last_dot_char(name.drop_last(), d);
        }
    }
}

/// The extension of a file name: what follows the last dot, absent when
/// there is no dot or the only dot leads the name.
pub open spec fn ext_of(name: Seq<char>) -> Option<Seq<char>> {
    let d = last_dot_in(name);
    if d <= 0 {
        None
    } else {
        Some(name.skip(d + 1))
    }
}

/// The stem of a file name: what precedes the last dot, or the whole
/// name when the dot is absent or leading.
pub open spec fn stem_of(name: Seq<char>) -> Seq<char> {
    let d = last_dot_in(name);
    if d <= 0 {
        name
    } else {
        name.take(d)
    }
}

/// Whether the path names a markdown file, by its extension.
pub open spec fn is_markdown_spec(p: Seq<char>) -> bool {
    match ext_of(file_name_of(p)) {
        Some(e) => e == "md"@ || e == "markdown"@,
        None => false,
    }
}

fn find_file_name_start(p: &str) -> (r: usize)
    ensures
        r == file_name_start(p@),
{
    let n: usize = p.unicode_len();
    let mut k: usize = n;
    while k > 0 && !slash_at(p, k - 1)
        invariant
            k <= n,
            n == p@.len(),
            forall|x: int| k <= x < n ==> p@[x] != '/',
        decreases k,
    {
        k = k - 1;
    }
    proof {
        if k > 0 {
            assert(p@[k - 1] == '/');
        }
        lemma_file_name_start_char(p@, k as int);
    }
    k
}

fn slash_at(p: &str, j: usize) -> (r: bool)
    requires
        j < p@.len(),
    ensures
        r == (p@[j as int] == '/'),
{
    char_eq(p.get_char(j), '/')
}

fn find_last_dot(name: &str) -> (r: Option<usize>)
    ensures
        match r {
            Some(d) => last_dot_in(name@) == d,
            None => last_dot_in(name@) == -1,
        },
{
    let n: usize = name.unicode_len();
    let mut k: usize = n;
    while k > 0 && !dot_at(name, k - 1)
        invariant
            k <= n,
            n == name@.len(),
            forall|x: int| k <= x < n ==> name@[x] != '.',
        decreases k,
    {
        k = k - 1;
    }
    if k == 0 {
        proof {
            lemma_last_dot_char(name@, -1);
        }
        None
    } else {
        proof {
            assert(name@[k - 1] == '.');
            lemma_last_dot_char(name@, k - 1);
        }
        Some(k - 1)
    }
}

fn dot_at(p: &str, j: usize) -> (r: bool)
    requires
        j < p@.len(),
    ensures
        r == (p@[j as int] == '.'),
{
    char_eq(p.get_char(j), '.')
}

/// Whether the path names a `.md` or `.markdown` file.
pub fn is_markdown_file(path: &str) -> (r: bool)
    ensures
        r == is_markdown_spec(path@),
{
    let start: usize = find_file_name_start(path);
    proof {
        lemma_file_name_start_le(path@);
    }
    let n: usize = path.unicode_len();
    let name: &str = path.substring_char(start, n);
    proof {
        assert(name@ == file_name_of(path@));
    }
    match find_last_dot(name) {
        Some(d) => {
            if d == 0 {
                return false;
            }
            let nn: usize = name.unicode_len();
            proof {
                lemma_last_dot_le(name@);
            }
            let ext: &str = name.substring_char(d + 1, nn);
            proof {
                assert(ext@ == name@.skip(d + 1));
            }
            str_eq(ext, "md") || str_eq(ext, "markdown")
        },
        None => false,
    }
}

/// Whether the watched root is a component-wise prefix of the path.
pub open spec fn is_path_prefix(dir: Seq<char>, p: Seq<char>) -> bool {
    &&& dir.len() <= p.len()
    &&& p.take(dir.len() as int) == dir
    &&& (p.len() == dir.len() || p[dir.len() as int] == '/' || (dir.len() > 0 && dir.last()
        == '/'))
}

/// Whether a changed path is safely inside the watched root: the
/// canonical form is checked when the file still exists; for a path
/// that is already gone, the raw path is checked instead.
pub open spec fn is_safe_path_spec(
    canonical: Option<Seq<char>>,
    path: Seq<char>,
    watch_dir: Seq<char>,
) -> bool {
    match canonical {
        Some(c) => is_path_prefix(watch_dir, c),
        None => is_path_prefix(watch_dir, path),
    }
}

fn check_prefix(dir: &str, p: &str) -> (r: bool)
    ensures
        r == is_path_prefix(dir@, p@),
{
    let dn: usize = dir.unicode_len();
    let pn: usize = p.unicode_len();
    if dn > pn {
        return false;
    }
    let head: &str = p.substring_char(0, dn);
    if !str_eq(head, dir) {
        proof {
            assert(head@ == p@.take(dn as int));
        }
        return false;
    }
    proof {
        assert(head@ == p@.take(dn as int));
    }
    if pn == dn {
        return true;
    }
    if char_eq(p.get_char(dn), '/') {
        return true;
    }
    if dn > 0 && char_eq(dir.get_char(dn - 1), '/') {
        return true;
    }
    false
}

/// Decides whether a path stays under the watched root. The host passes
/// the canonical form when the file still exists on disk.
pub fn is_safe_path(canonical: Option<&str>, path: &str, watch_dir: &str) -> (r: bool)
    ensures
        r == is_safe_path_spec(
            match canonical {
                Some(c) => Some(c@),
                None => None,
            },
            path@,
            watch_dir@,
        ),
{
    match canonical {
        Some(c) => check_prefix(watch_dir, c),
        None => check_prefix(watch_dir, path),
    }
}

/// Whether any `/`-delimited component of the path begins with a dot.
pub open spec fn has_hidden_component(p: Seq<char>) -> bool {
    exists|i: int| 0 <= i < p.len() && #[trigger] p[i] == '.' && (i == 0 || p[i - 1] == '/')
}

fn has_hidden_component_exec(p: &str) -> (r: bool)
    ensures
        r == has_hidden_component(p@),
{
    let n: usize = p.unicode_len();
    let mut i: usize = 0;
    while i < n
        invariant
            i <= n,
            n == p@.len(),
            forall|k: int| 0 <= k < i ==> !(#[trigger] p@[k] == '.' && (k == 0 || p@[k - 1] == '/')),
        decreases n - i,
    {
        if dot_at(p, i) && (i == 0 || slash_at(p, i - 1)) {
            proof {
                assert(p@[i as int] == '.' && (i as int == 0 || p@[i as int - 1] == '/'));
            }
            return true;
        }
        i = i + 1;
    }
    false
}

/// The scan candidates: paths that hide no component and name a
/// markdown file, in input order.
pub open spec fn walk_kept(paths: Seq<String>) -> Seq<String>
    decreases paths.len(),
{
    if paths.len() == 0 {
        Seq::empty()
    } else if !has_hidden_component(paths.last()@) && is_markdown_spec(paths.last()@) {
        walk_kept(paths.drop_last()).push(paths.last())
    } else {
        walk_kept(paths.drop_last())
    }
}

/// Filters an enumerated file list down to visible markdown files and
/// sorts it; the host does the directory walk and hands the raw paths
/// in.
pub fn walk_md_files(paths: &Vec<String>) -> (r: Vec<String>)
    ensures
        r@.to_multiset() == walk_kept(paths@).to_multiset(),
        forall|a: int, b: int| 0 <= a < b < r@.len() ==> lex_le(#[trigger] r@[a]@, #[trigger] r@[b]@),
{
    broadcast use vstd::seq_lib::group_to_multiset_ensures;

    let mut kept: Vec<String> = Vec::new();
    let mut i: usize = 0;
    proof {
        assert(paths@.take(0) =~= Seq::<String>::empty());
        assert(kept@.to_multiset() =~= walk_kept(paths@.take(0)).to_multiset());
    }
    while i < paths.len()
        invariant
            i <= paths@.len(),
            kept@ == walk_kept(paths@.take(i as int)),
        decreases paths@.len() - i,
    {
        proof {
            assert(paths@.take(i + 1).drop_last() =~= paths@.take(i as int));
            assert(paths@.take(i + 1).last() == paths@[i as int]);
        }
        let p = &paths[i];
        if !has_hidden_component_exec(p.as_str()) && is_markdown_file(p.as_str()) {
            kept.push(p.clone());
        }
        i = i + 1;
    }
    proof {
        assert(paths@.take(paths@.len() as int) =~= paths@);
    }
    // insertion sort by the lexicographic path order
    let mut out: Vec<String> = Vec::new();
    let mut k: usize = 0;
    proof {
        assert(kept@.take(0) =~= Seq::<String>::empty());
        assert(out@.to_multiset() =~= kept@.take(0).to_multiset());
    }
    while k < kept.len()
        invariant
            k <= kept@.len(),
            kept@ == walk_kept(paths@),
            out@.to_multiset() == kept@.take(k as int).to_multiset(),
            out@.len() == k,
            forall|a: int, b: int|
                0 <= a < b < out@.len() ==> lex_le(#[trigger] out@[a]@, #[trigger] out@[b]@),
        decreases kept@.len() - k,
    {
        let x: String = kept[k].clone();
        let mut p: usize = 0;
        while p < out.len() && str_le(out[p].as_str(), x.as_str())
            invariant
                p <= out@.len(),
                forall|q: int| 0 <= q < p ==> lex_le(#[trigger] out@[q]@, x@),
            decreases out@.len() - p,
        {
            p = p + 1;
        }
        let ghost old_out = out@;
        out.insert(p, x);
        proof {
            assert(x == kept@[k as int]);
            crate::order::lemma_to_multiset_insert(old_out, p as int, x);
            assert(kept@.take(k + 1) =~= kept@.take(k as int).push(kept@[k as int]));
            kept@.take(k as int).to_multiset_ensures();
            assert(kept@.take(k as int).push(kept@[k as int]).to_multiset() =~= kept@.take(
                k as int,
            ).to_multiset().insert(kept@[k as int]));
            assert(kept@.take(k + 1).to_multiset() =~= kept@.take(k as int).to_multiset().insert(
                kept@[k as int],
            ));
            assert forall|a: int, b: int|
                0 <= a < b < out@.len() implies lex_le(
                #[trigger] out@[a]@,
                #[trigger] out@[b]@,
            ) by {
                if a < p && b > p {
                    assert(out@[a] == old_out[a]);
                    assert(out@[b] == old_out[b - 1]);
                } else if a == p && b > p {
                    assert(out@[b] == old_out[b - 1]);
                    if p < old_out.len() {
                        assert(!lex_le(old_out[p as int]@, x@));
                        crate::chars::lemma_lex_total(old_out[p as int]@, x@);
                        if b - 1 > p {
                            crate::order::lemma_lex_le_trans(
                                x@,
                                old_out[p as int]@,
                                old_out[b - 1]@,
                            );
                        }
                    }
                } else if a < p && b == p {
                    assert(out@[a] == old_out[a]);
                } else if b < p {
                    assert(out@[a] == old_out[a]);
                    assert(out@[b] == old_out[b]);
                }
            }
        }
        k = k + 1;
    }
    proof {
        assert(kept@.take(kept@.len() as int) =~= kept@);
    }
    out
}

fn str_le(a: &str, b: &str) -> (r: bool)
    ensures
        r == lex_le(a@, b@),
{
    str_lt(a, b) || str_eq(a, b)
}

// ---------------------------------------------------------------------
// Front matter
// ---------------------------------------------------------------------

/// The `title` entry of a parsed front-matter block, when the block
/// parses and the entry is a string. What it is on given text is not
/// axiomatized.
pub uninterp spec fn yaml_title_of(s: Seq<char>) -> Option<Seq<char>>;

/// Reads the `title` of a front-matter block.
/// Relies on `serde_yaml::from_str` and `serde_yaml::Value::get` /
/// `Value::as_str`: parses the text as YAML and reads its `title`
/// entry as a string; the result is a function of the text alone.
#[verifier::external_body]
fn yaml_title(s: &str) -> (r: Option<String>)
    ensures
        match r {
            Some(t) => yaml_title_of(s@) == Some(t@),
            None => yaml_title_of(s@) is None,
        },
{
    match serde_yaml::from_str::<serde_yaml::Value>(s) {
        Ok(v) => v.get("title").and_then(|t| t.as_str()).map(|t| t.to_string()),
        Err(_) => None,
    }
}

/// Whether three dashes stand at `j`.
pub open spec fn dashes_at(s: Seq<char>, j: int) -> bool {
    j + 3 <= s.len() && s[j] == '-' && s[j + 1] == '-' && s[j + 2] == '-'
}

/// The first position at or after `i` where three dashes stand, or the
/// length when there is none.
pub open spec fn first_dashes(s: Seq<char>, i: int) -> int
    decreases s.len() - i,
{
    if i < 0 || i + 3 > s.len() {
        s.len() as int
    } else if dashes_at(s, i) {
        i
    } else {
        first_dashes(s, i + 1)
    }
}

proof fn lemma_first_dashes_le(s: Seq<char>, i: int)
    requires
        0 <= i,
    ensures
        i <= first_dashes(s, i) || first_dashes(s, i) == s.len(),
        first_dashes(s, i) <= s.len(),
        first_dashes(s, i) < s.len() ==> dashes_at(s, first_dashes(s, i)),
        forall|k: int| i <= k < first_dashes(s, i) ==> !dashes_at(s, k),
    decreases s.len() - i,
{
    if i + 3 <= s.len() && !dashes_at(s, i) {
        lemma_first_dashes_le(s, i + 1);
    }
}

/// The fallback title for a file: its stem, or a fixed name when the
/// path has no file name.
pub open spec fn fallback_title(path: Seq<char>) -> Seq<char> {
    if file_name_of(path).len() == 0 {
        "Untitled"@
    } else {
        stem_of(file_name_of(path))
    }
}

/// What `extract_front_matter` returns: the title and body of a note
/// file. A leading `---` fence opens a front-matter block closed by the
/// next `---`; a `title` entry that parses to a non-blank string wins,
/// else the file's stem; the body is what follows the closing fence
/// with leading whitespace removed. Without a complete fence the whole
/// text is the body.
pub open spec fn front_matter_spec(content: Seq<char>, path: Seq<char>) -> (Seq<char>, Seq<char>) {
    if !dashes_at(content, 0) {
        (fallback_title(path), content)
    } else {
        let j = first_dashes(content, 3);
        if j == content.len() {
            (fallback_title(path), content)
        } else {
            let front = content.subrange(3, j);
            let body = content.skip(j + 3).skip(
                ws_run_len(content.skip(j + 3)) as int,
            );
            match yaml_title_of(front) {
                Some(t) => if trim_spec(t).len() > 0 {
                    (trim_spec(t), body)
                } else {
                    (fallback_title(path), body)
                },
                None => (fallback_title(path), body),
            }
        }
    }
}

/// Splits a note file into its title and body.
pub fn extract_front_matter(content: &str, path: &str) -> (r: (String, String))
    ensures
        r.0@ == front_matter_spec(content@, path@).0,
        r.1@ == front_matter_spec(content@, path@).1,
{
    let n: usize = content.unicode_len();
    let opens: bool = n >= 3 && dash_at3(content, 0) && dash_at3(content, 1) && dash_at3(
        content,
        2,
    );
    if !opens {
        return (compute_fallback(path), String::from_str(content));
    }
    // find the closing fence
    let mut j: usize = 3;
    while j <= n - 3 && !(dash_at3(content, j) && dash_at3(content, j + 1) && dash_at3(
        content,
        j + 2,
    ))
        invariant
            3 <= j <= n,
            n >= 3,
            n == content@.len(),
            forall|k: int| 3 <= k < j ==> !dashes_at(content@, k),
        decreases n - j,
    {
        proof {
            assert(!dashes_at(content@, j as int));
        }
        j = j + 1;
    }
    if j > n - 3 {
        proof {
            lemma_first_dashes_le(content@, 3);
            assert(first_dashes(content@, 3) == content@.len()) by {
                let f = first_dashes(content@, 3);
                if f < content@.len() {
                    assert(dashes_at(content@, f));
                    assert(f + 3 <= content@.len());
                    assert(3 <= f < j);
                }
            }
        }
        return (compute_fallback(path), String::from_str(content));
    }
    proof {
        lemma_first_dashes_le(content@, 3);
        assert(dashes_at(content@, j as int));
        assert(first_dashes(content@, 3) == j as int) by {
            let f = first_dashes(content@, 3);
            if f < j as int {
                assert(!dashes_at(content@, f));
            }
            if f > j as int {
                assert(!dashes_at(content@, j as int));
            }
        }
    }
    let front: &str = content.substring_char(3, j);
    let rest: &str = content.substring_char(j + 3, n);
    let body: String = trim_start_exec(rest);
    proof {
        assert(front@ == content@.subrange(3, j as int));
        assert(rest@ == content@.skip(j + 3));
    }
    match yaml_title(front) {
        Some(t) => {
            let tt: String = crate::text::trim(t.as_str());
            if tt.as_str().unicode_len() > 0 {
                (tt, body)
            } else {
                (compute_fallback(path), body)
            }
        },
        None => (compute_fallback(path), body),
    }
}

fn dash_at3(s: &str, j: usize) -> (r: bool)
    requires
        j < s@.len(),
    ensures
        r == (s@[j as int] == '-'),
{
    char_eq(s.get_char(j), '-')
}

/// Removes leading whitespace only.
fn trim_start_exec(s: &str) -> (r: String)
    ensures
        r@ == s@.skip(ws_run_len(s@) as int),
{
    let n: usize = s.unicode_len();
    let mut i: usize = 0;
    while i < n && ws_at_watch(s, i)
        invariant
            i <= n,
            n == s@.len(),
            forall|k: int| 0 <= k < i ==> crate::chars::is_ws_char(s@[k]),
        decreases n - i,
    {
        i = i + 1;
    }
    proof {
        if i < n {
            assert(!crate::chars::is_ws_char(s@[i as int]));
        }
        lemma_ws_run_watch(s@, i as int);
    }
    String::from_str(s.substring_char(i, n))
}

fn ws_at_watch(s: &str, j: usize) -> (r: bool)
    requires
        j < s@.len(),
    ensures
        r == crate::chars::is_ws_char(s@[j as int]),
{
    crate::chars::is_ws(s.get_char(j))
}

proof fn lemma_ws_run_watch(s: Seq<char>, m: int)
    requires
        0 <= m <= s.len(),
        forall|k: int| 0 <= k < m ==> crate::chars::is_ws_char(s[k]),
        m == s.len() || !crate::chars::is_ws_char(s[m]),
    ensures
        ws_run_len(s) == m,
    decreases m,
{
    if m > 0 {
        assert(crate::chars::is_ws_char(s[0]));
        assert forall|k: int| 0 <= k < m - 1 implies crate::chars::is_ws_char(
            s.drop_first()[k],
        ) by {
            assert(s.drop_first()[k] == s[k + 1]);
        }
        if m - 1 < s.drop_first().len() {
            assert(s.drop_first()[m - 1] == s[m]);
        }
        lemma_ws_run_watch(s.drop_first(), m - 1);
    }
}

fn compute_fallback(path: &str) -> (r: String)
    ensures
        r@ == fallback_title(path@),
{
    let start: usize = find_file_name_start(path);
    proof {
        lemma_file_name_start_le(path@);
    }
    let n: usize = path.unicode_len();
    let name: &str = path.substring_char(start, n);
    proof {
        assert(name@ == file_name_of(path@));
    }
    if name.unicode_len() == 0 {
        return String::from_str("Untitled");
    }
    match find_last_dot(name) {
        Some(d) => {
            if d == 0 {
                String::from_str(name)
            } else {
                proof {
                    lemma_last_dot_le(name@);
                }
                let stem: &str = name.substring_char(0, d);
                proof {
                    assert(stem@ == name@.take(d as int));
                }
                String::from_str(stem)
            }
        },
        None => String::from_str(name),
    }
}

// ---------------------------------------------------------------------
// The per-path decision
// ---------------------------------------------------------------------

/// What to do about one settled path.
#[derive(Debug, Clone, Copy, PartialEq, Eq, Structural)]
pub enum FileAction {
    /// The file is new here: create a note with this path.
    Create,
    /// The file changed: update the existing note.
    Update,
    /// The note already matches the file, or a vanished file has no
    /// note: nothing to do.
    Skip,
    /// The file is gone: remove the note's row directly, never the
    /// file — deleting through the editor path would try to remove it
    /// again or clobber a concurrent writer.
    DeleteRow,
}

/// What `plan_file_change` decides.
pub open spec fn plan_spec(
    file_exists: bool,
    title: Seq<char>,
    body: Seq<char>,
    existing: Option<Note>,
) -> FileAction {
    if file_exists {
        match existing {
            Some(n) => if n.title@ == title && n.content@ == body {
                FileAction::Skip
            } else {
                FileAction::Update
            },
            None => FileAction::Create,
        }
    } else {
        match existing {
            Some(_) => FileAction::DeleteRow,
            None => FileAction::Skip,
        }
    }
}

/// Decides what one settled path means for the store: create, update,
/// skip, or remove the database row of a note whose file is gone.
pub fn plan_file_change(
    file_exists: bool,
    title: &str,
    body: &str,
    existing: Option<&Note>,
) -> (r: FileAction)
    ensures
        r == plan_spec(
            file_exists,
            title@,
            body@,
            match existing {
                Some(n) => Some(*n),
                None => None,
            },
        ),
{
    if file_exists {
        match existing {
            Some(n) => {
                if str_eq(n.title.as_str(), title) && str_eq(n.content.as_str(), body) {
                    FileAction::Skip
                } else {
                    FileAction::Update
                }
            },
            None => FileAction::Create,
        }
    } else {
        match existing {
            Some(_) => FileAction::DeleteRow,
            None => FileAction::Skip,
        }
    }
}

} // verus!
