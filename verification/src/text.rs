//! Trimming and the validation rules for note titles and contents.

use vstd::prelude::*;
use crate::chars::{byte_len, byte_len_exceeds, is_ws, is_ws_char};
use crate::errors::SunderError;

verus! {

/// Length of the leading run of whitespace characters.
pub open spec fn ws_run_len(s: Seq<char>) -> nat
    decreases s.len(),
{
    if s.len() == 0 || !is_ws_char(s[0]) {
        0
    } else {
        1 + ws_run_len(s.drop_first())
    }
}

/// Length of the trailing run of whitespace characters.
pub open spec fn trailing_ws_len(s: Seq<char>) -> nat
    decreases s.len(),
{
    if s.len() == 0 || !is_ws_char(s.last()) {
        0
    } else {
        1 + trailing_ws_len(s.drop_last())
    }
}

proof fn lemma_ws_run_char(s: Seq<char>, m: int)
    requires
        0 <= m <= s.len(),
        forall|k: int| 0 <= k < m ==> is_ws_char(s[k]),
        m == s.len() || !is_ws_char(s[m]),
    ensures
        ws_run_len(s) == m,
    decreases m,
{
    if m == 0 {
    } else {
        assert(is_ws_char(s[0]));
        assert forall|k: int| 0 <= k < m - 1 implies is_ws_char(s.drop_first()[k]) by {
            assert(s.drop_first()[k] == s[k + 1]);
        }
        if m - 1 < s.drop_first().len() {
            assert(s.drop_first()[m - 1] == s[m]);
        }
        lemma_ws_run_char(s.drop_first(), m - 1);
    }
}

proof fn lemma_trailing_char(s: Seq<char>, j: int)
    requires
        0 <= j <= s.len(),
        forall|k: int| j <= k < s.len() ==> is_ws_char(s[k]),
        j == 0 || !is_ws_char(s[j - 1]),
    ensures
        trailing_ws_len(s) == s.len() - j,
    decreases s.len(),
{
    if j < s.len() {
        assert(is_ws_char(s.last()));
        assert forall|k: int| j <= k < s.drop_last().len() implies is_ws_char(
            s.drop_last()[k],
        ) by {
            assert(s.drop_last()[k] == s[k]);
        }
        if j > 0 {
            assert(s.drop_last()[j - 1] == s[j - 1]);
        }
        lemma_trailing_char(s.drop_last(), j);
    } else {
        if s.len() > 0 {
            assert(!is_ws_char(s[s.len() - 1]));
        }
    }
}

/// `s` with leading and trailing whitespace removed.
pub open spec fn trim_spec(s: Seq<char>) -> Seq<char> {
    if ws_run_len(s) == s.len() {
        Seq::empty()
    } else {
        s.subrange(ws_run_len(s) as int, s.len() - trailing_ws_len(s))
    }
}

/// Removes leading and trailing whitespace, as `str::trim` does.
pub fn trim(s: &str) -> (r: String)
    ensures
        r@ == trim_spec(s@),
{
    let n: usize = s.unicode_len();
    let mut i: usize = 0;
    while i < n && ws_at_trim(s, i)
        invariant
            i <= n,
            n == s@.len(),
            forall|k: int| 0 <= k < i ==> is_ws_char(s@[k]),
        decreases n - i,
    {
        i = i + 1;
    }
    if i == n {
        proof {
            lemma_ws_run_char(s@, n as int);
        }
        return String::new();
    }
    let mut j: usize = n;
    while j > i && ws_at_trim(s, j - 1)
        invariant
            i <= j <= n,
            n == s@.len(),
            i < n,
            !is_ws_char(s@[i as int]),
            forall|k: int| j <= k < n ==> is_ws_char(s@[k]),
        decreases j,
    {
        j = j - 1;
    }
    proof {
        lemma_ws_run_char(s@, i as int);
        assert(j > i) by {
            if j == i {
                assert(is_ws_char(s@[i as int]));
            }
        }
        assert(!is_ws_char(s@[j - 1]));
        lemma_trailing_char(s@, j as int);
    }
    String::from_str(s.substring_char(i, j))
}

fn ws_at_trim(s: &str, j: usize) -> (r: bool)
    requires
        j < s@.len(),
    ensures
        r == is_ws_char(s@[j as int]),
{
    is_ws(s.get_char(j))
}

/// Largest number of bytes a title may take, after trimming.
pub const TITLE_MAX_BYTES: usize = 500;

/// Largest number of bytes a note's content may take.
pub const CONTENT_MAX_BYTES: usize = 2097152;

/// Whether a trimmed title passes validation.
pub open spec fn title_ok(trimmed: Seq<char>) -> bool {
    trimmed.len() > 0 && byte_len(trimmed) <= TITLE_MAX_BYTES as int
}

/// Whether a content string passes validation.
pub open spec fn content_ok(content: Seq<char>) -> bool {
    byte_len(content) <= CONTENT_MAX_BYTES as int
}

/// Trims a title and validates it: it must be non-empty and take at most
/// `TITLE_MAX_BYTES` bytes once trimmed.
pub fn validate_title(title: &str) -> (r: Result<String, SunderError>)
    ensures
        r is Ok <==> title_ok(trim_spec(title@)),
        r matches Ok(t) ==> t@ == trim_spec(title@),
        r matches Err(e) ==> e is ValidationError,
{
    let t = trim(title);
    if t.as_str().unicode_len() == 0 {
        return Err(SunderError::ValidationError(String::from_str("Title cannot be empty")));
    }
    if byte_len_exceeds(t.as_str(), TITLE_MAX_BYTES) {
        return Err(
            SunderError::ValidationError(
                String::from_str("Title must be 500 characters or fewer"),
            ),
        );
    }
    Ok(t)
}

/// Validates a content string: it may take at most `CONTENT_MAX_BYTES`
/// bytes.
pub fn validate_content(content: &str) -> (r: Result<(), SunderError>)
    ensures
        r is Ok <==> content_ok(content@),
        r matches Err(e) ==> e is ContentTooLarge,
{
    if byte_len_exceeds(content, CONTENT_MAX_BYTES) {
        return Err(SunderError::ContentTooLarge(String::from_str("Content exceeds 2MB limit")));
    }
    Ok(())
}

} // verus!
