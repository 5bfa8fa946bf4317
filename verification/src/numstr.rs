//! Decimal strings for the settings table: parsing digit strings into
//! integers and rendering integers back.

use vstd::prelude::*;
use crate::chars::push_char;

verus! {

/// Whether `c` is an ASCII digit.
pub open spec fn is_digit(c: char) -> bool {
    0x30 <= c as u32 && c as u32 <= 0x39
}

/// The value of a digit.
pub open spec fn digit_val(c: char) -> int {
    c as u32 - 0x30
}

/// The digit character for a value below ten.
pub open spec fn digit_char(d: int) -> char {
    ((0x30 + d) as u8) as char
}

/// The numeric value of a digit string prefix.
pub open spec fn digits_val(s: Seq<char>) -> int
    decreases s.len(),
{
    if s.len() == 0 {
        0
    } else {
        10 * digits_val(s.drop_last()) + digit_val(s.last())
    }
}

/// Whether every character is a digit.
pub open spec fn all_digits(s: Seq<char>) -> bool {
    forall|i: int| 0 <= i < s.len() ==> is_digit(#[trigger] s[i])
}

/// What `parse_u32` accepts: a non-empty digit string whose value fits.
pub open spec fn parse_u32_spec(s: Seq<char>) -> Option<u32> {
    if s.len() > 0 && all_digits(s) && digits_val(s) <= u32::MAX {
        Some(digits_val(s) as u32)
    } else {
        None
    }
}

proof fn lemma_digits_val_nonneg(s: Seq<char>)
    requires
        all_digits(s),
    ensures
        digits_val(s) >= 0,
    decreases s.len(),
{
    if s.len() > 0 {
        assert forall|i: int| 0 <= i < s.drop_last().len() implies is_digit(
            #[trigger] s.drop_last()[i],
        ) by {
            assert(s.drop_last()[i] == s[i]);
        }
        lemma_digits_val_nonneg(s.drop_last());
        assert(is_digit(s.last()));
    }
}

/// Parses a non-empty ASCII digit string.
pub fn parse_u32(s: &str) -> (r: Option<u32>)
    ensures
        r == parse_u32_spec(s@),
{
    let n: usize = s.unicode_len();
    if n == 0 {
        return None;
    }
    let mut acc: u32 = 0;
    let mut i: usize = 0;
    proof {
        assert(s@.take(0) =~= Seq::<char>::empty());
    }
    while i < n
        invariant
            i <= n,
            n == s@.len(),
            n > 0,
            all_digits(s@.take(i as int)),
            acc == digits_val(s@.take(i as int)),
        decreases n - i,
    {
        let c: char = s.get_char(i);
        let u: u32 = c as u32;
        if u < 0x30 || u > 0x39 {
            proof {
                assert(!is_digit(s@[i as int]));
            }
            return None;
        }
        let d: u32 = u - 0x30;
        proof {
            assert(s@.take(i + 1).drop_last() =~= s@.take(i as int));
            assert(s@.take(i + 1).last() == s@[i as int]);
            assert forall|k: int| 0 <= k < i + 1 implies is_digit(#[trigger] s@.take(i + 1)[k]) by {
                if k < i {
                    assert(s@.take(i + 1)[k] == s@.take(i as int)[k]);
                } else {
                    assert(s@.take(i + 1)[k] == s@[i as int]);
                }
            }
        }
        if acc > (u32::MAX - d) / 10 {
            proof {
                lemma_digits_val_grows(s@, i as int);
            }
            return None;
        }
        acc = acc * 10 + d;
        i = i + 1;
    }
    proof {
        assert(s@.take(n as int) =~= s@);
    }
    Some(acc)
}

/// Once a prefix is too large, the whole string is too large.
proof fn lemma_digits_val_grows(s: Seq<char>, i: int)
    requires
        0 <= i < s.len(),
        all_digits(s.take(i + 1)),
        10 * digits_val(s.take(i)) + digit_val(s[i]) > u32::MAX,
    ensures
        !(all_digits(s) && digits_val(s) <= u32::MAX),
{
    if all_digits(s) {
        lemma_digits_val_prefix_le(s, i + 1, s.len() as int);
        assert(s.take(i + 1).drop_last() =~= s.take(i));
        assert(s.take(i + 1).last() == s[i]);
        assert(digits_val(s.take(i + 1)) == 10 * digits_val(s.take(i)) + digit_val(s[i]));
        assert(s.take(s.len() as int) =~= s);
    }
}

/// Longer digit prefixes have values at least as large.
proof fn lemma_digits_val_prefix_le(s: Seq<char>, a: int, b: int)
    requires
        all_digits(s),
        0 <= a <= b <= s.len(),
    ensures
        digits_val(s.take(a)) <= digits_val(s.take(b)),
    decreases b - a,
{
    if a < b {
        lemma_digits_val_prefix_le(s, a, b - 1);
        assert(s.take(b).drop_last() =~= s.take(b - 1));
        assert(s.take(b).last() == s[b - 1]);
        assert forall|k: int| 0 <= k < b - 1 implies is_digit(#[trigger] s.take(b - 1)[k]) by {
            assert(s.take(b - 1)[k] == s[k]);
        }
        lemma_digits_val_nonneg(s.take(b - 1));
        assert(is_digit(s[b - 1]));
        assert(digits_val(s.take(b)) == 10 * digits_val(s.take(b - 1)) + digit_val(s[b - 1]));
    }
}

/// The canonical digit string of a value: no leading zeros, `"0"` for
/// zero.
pub open spec fn dec_digits(v: int) -> Seq<char>
    decreases v,
{
    if v < 10 {
        seq![digit_char(v)]
    } else {
        dec_digits(v / 10).push(digit_char(v % 10))
    }
}

/// Renders a value in decimal.
pub fn render_u32(v: u32) -> (r: String)
    ensures
        r@ == dec_digits(v as int),
    decreases v,
{
    if v < 10 {
        let mut s = String::new();
        push_char(&mut s, (0x30 + v as u8) as char);
        proof {
            assert(s@ =~= seq![digit_char(v as int)]);
        }
        s
    } else {
        let mut s = render_u32(v / 10);
        push_char(&mut s, (0x30 + (v % 10) as u8) as char);
        s
    }
}

/// Rendering then parsing gives the value back.
pub proof fn lemma_dec_digits_round_trip(v: int)
    requires
        0 <= v <= u32::MAX,
    ensures
        parse_u32_spec(dec_digits(v)) == Some(v as u32),
    decreases v,
{
    lemma_dec_digits_all(v);
    lemma_dec_digits_val(v);
}

proof fn lemma_dec_digits_all(v: int)
    requires
        v >= 0,
    ensures
        dec_digits(v).len() >= 1,
        all_digits(dec_digits(v)),
    decreases v,
{
    if v < 10 {
        assert(is_digit(digit_char(v))) by {
            assert(((0x30 + v) as u8) as char as u32 == (0x30 + v) as u32);
        }
    } else {
        lemma_dec_digits_all(v / 10);
        let d = dec_digits(v);
        assert(d == dec_digits(v / 10).push(digit_char(v % 10)));
        assert(is_digit(digit_char(v % 10))) by {
            let m = v % 10;
            assert(((0x30 + m) as u8) as char as u32 == (0x30 + m) as u32);
        }
        assert forall|i: int| 0 <= i < d.len() implies is_digit(#[trigger] d[i]) by {
            if i < d.len() - 1 {
                assert(d[i] == dec_digits(v / 10)[i]);
            }
        }
    }
}

proof fn lemma_dec_digits_val(v: int)
    requires
        v >= 0,
    ensures
        digits_val(dec_digits(v)) == v,
    decreases v,
{
    if v < 10 {
        let d0 = dec_digits(v);
        assert(d0 == seq![digit_char(v)]);
        assert(digit_val(digit_char(v)) == v) by {
            assert(((0x30 + v) as u8) as char as u32 == (0x30 + v) as u32);
        }
        assert(d0.len() == 1);
        assert(d0.last() == digit_char(v));
        assert(d0.drop_last() =~= Seq::<char>::empty());
        assert(digits_val(Seq::<char>::empty()) == 0);
        assert(digits_val(d0) == 10 * digits_val(d0.drop_last()) + digit_val(d0.last()));
    } else {
        lemma_dec_digits_val(v / 10);
        let d = dec_digits(v);
        assert(d == dec_digits(v / 10).push(digit_char(v % 10)));
        assert(d.drop_last() =~= dec_digits(v / 10));
        assert(d.last() == digit_char(v % 10));
        assert(digit_val(digit_char(v % 10)) == v % 10) by {
            let m = v % 10;
            assert(((0x30 + m) as u8) as char as u32 == (0x30 + m) as u32);
        }
        assert(digits_val(d) == 10 * digits_val(d.drop_last()) + digit_val(d.last()));
        assert(digits_val(d) == 10 * (v / 10) + v % 10);
    }
}

} // verus!
