//! Order-theoretic facts the sorted views of the store rest on:
//! transitivity of the lexicographic string order and the effect of a
//! positional insertion on a sequence's multiset.

use vstd::prelude::*;
use vstd::seq_lib::lemma_multiset_commutative;
use crate::chars::{lemma_char_eq_by_scalar, lex_le, lex_lt};

verus! {

pub proof fn lemma_lex_lt_trans(a: Seq<char>, b: Seq<char>, c: Seq<char>)
    requires
        lex_lt(a, b),
        lex_lt(b, c),
    ensures
        lex_lt(a, c),
    decreases a.len(),
{
    assert(b.len() > 0);
    assert(c.len() > 0);
    if a.len() > 0 {
        let au = a[0] as u32;
        let bu = b[0] as u32;
        let cu = c[0] as u32;
        if au < bu {
            assert(bu <= cu);
        } else {
            assert(au == bu);
            lemma_char_eq_by_scalar(a[0], b[0]);
            if bu < cu {
            } else {
                assert(bu == cu);
                lemma_char_eq_by_scalar(b[0], c[0]);
                lemma_lex_lt_trans(a.drop_first(), b.drop_first(), c.drop_first());
            }
        }
    }
}

pub proof fn lemma_lex_le_trans(a: Seq<char>, b: Seq<char>, c: Seq<char>)
    requires
        lex_le(a, b),
        lex_le(b, c),
    ensures
        lex_le(a, c),
{
    if a == b || b == c {
    } else {
        lemma_lex_lt_trans(a, b, c);
    }
}

/// Inserting an element anywhere adds exactly that element to the
/// sequence's multiset.
pub proof fn lemma_to_multiset_insert<A>(s: Seq<A>, j: int, x: A)
    requires
        0 <= j <= s.len(),
    ensures
        s.insert(j, x).to_multiset() == s.to_multiset().insert(x),
{
    broadcast use vstd::seq_lib::group_to_multiset_ensures;

    let l = s.take(j);
    let r = s.skip(j);
    assert(s.insert(j, x) =~= l.push(x) + r);
    lemma_multiset_commutative(l.push(x), r);
    assert(s =~= l + r);
    lemma_multiset_commutative(l, r);
    assert(l.push(x).to_multiset() =~= l.to_multiset().insert(x));
    assert(s.insert(j, x).to_multiset() =~= s.to_multiset().insert(x));
}

} // verus!
