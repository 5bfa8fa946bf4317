//! The three retrieval modes and their Reciprocal-Rank-Fusion combiner.
//!
//! The lexical mode answers from the in-memory match model (every kept
//! query token must occur in a column; matches come in store order with
//! unit score — a persistent deployment ranks them by BM25 in the host).
//! The semantic mode joins a ranked neighbour list from the vector index
//! against the notes. The hybrid mode fuses both lists with RRF at
//! `k = 60`, scoring each list member `1/(k + rank)` with 1-based ranks,
//! computed here as exact rationals and reported in millionths.

use vstd::prelude::*;
use crate::chars::str_eq;
use crate::errors::SunderError;
use crate::fts::{note_matches, note_matches_exec, sanitize_tokens, sanitized_empty};
use crate::snippet::{make_snippet, snippet_spec};
use crate::store::{has_note_id, Note, Store};
use crate::words::tokens_of;

verus! {

/// Which retrieval mode to run.
#[derive(Debug, Clone, Copy, PartialEq, Eq, Structural)]
pub enum SearchMode {
    Hybrid,
    Fulltext,
    Semantic,
}

/// Which underlying lists a result appeared in.
#[derive(Debug, Clone, Copy, PartialEq, Eq, Structural)]
pub enum MatchType {
    Fulltext,
    Semantic,
    Both,
}

/// One search result. Scores are in millionths: the lexical model
/// reports unit relevance, the semantic mode reports `1 - distance`,
/// and the hybrid mode reports the fused RRF score.
pub struct SearchResult {
    pub id: String,
    pub title: String,
    pub snippet: String,
    pub score_micros: i64,
    pub match_type: MatchType,
}

/// One ranked hit from the dense vector index, as the host hands it in:
/// the note id and `1 - distance` in millionths.
pub struct SemanticHit {
    pub note_id: String,
    pub similarity_micros: i64,
}

/// No two results carry the same note id.
pub open spec fn distinct_ids(rs: Seq<SearchResult>) -> bool {
    forall|a: int, b: int|
        0 <= a < b < rs.len() ==> (#[trigger] rs[a]).id@ != (#[trigger] rs[b]).id@
}

pub open spec fn has_rid(rs: Seq<SearchResult>, id: Seq<char>) -> bool {
    exists|i: int| 0 <= i < rs.len() && rs[i].id@ == id
}

/// The rank (0-based position) of an id; meaningful under
/// `distinct_ids`.
pub open spec fn rank_of(rs: Seq<SearchResult>, id: Seq<char>) -> int {
    choose|i: int| 0 <= i < rs.len() && rs[i].id@ == id
}

pub open spec fn sem_rank_opt(sem: Seq<SearchResult>, id: Seq<char>) -> Option<usize> {
    if has_rid(sem, id) {
        Some(rank_of(sem, id) as usize)
    } else {
        None
    }
}

/// A fusion candidate: one note with its ranks in the two lists.
pub struct Cand {
    pub id: String,
    pub title: String,
    pub snippet: String,
    pub rf: Option<usize>,
    pub rs: Option<usize>,
}

/// The semantic results whose notes the lexical list does not contain,
/// in order.
pub open spec fn sem_only(sem: Seq<SearchResult>, fts: Seq<SearchResult>) -> Seq<SearchResult>
    decreases sem.len(),
{
    if sem.len() == 0 {
        Seq::empty()
    } else if has_rid(fts, sem.last().id@) {
        sem_only(sem.drop_last(), fts)
    } else {
        sem_only(sem.drop_last(), fts).push(sem.last())
    }
}

/// The canonical candidate list: the lexical results in rank order,
/// then the semantic-only results in rank order.
pub open spec fn canon_cands(fts: Seq<SearchResult>, sem: Seq<SearchResult>) -> Seq<Cand> {
    Seq::new(
        fts.len(),
        |k: int|
            Cand {
                id: fts[k].id,
                title: fts[k].title,
                snippet: fts[k].snippet,
                rf: Some(k as usize),
                rs: sem_rank_opt(sem, fts[k].id@),
            },
    ) + Seq::new(
        sem_only(sem, fts).len(),
        |j: int|
            Cand {
                id: sem_only(sem, fts)[j].id,
                title: sem_only(sem, fts)[j].title,
                snippet: sem_only(sem, fts)[j].snippet,
                rf: None,
                rs: Some(rank_of(sem, sem_only(sem, fts)[j].id@) as usize),
            },
    )
}

/// Numerator of the exact RRF score `1/(61+rf) + 1/(61+rs)` with
/// 1-based ranks folded into the 61.
pub open spec fn rrf_num(c: Cand) -> int {
    match (c.rf, c.rs) {
        (Some(f), Some(s)) => (61 + f) + (61 + s),
        (Some(_), None) => 1,
        (None, Some(_)) => 1,
        (None, None) => 0,
    }
}

pub open spec fn rrf_den(c: Cand) -> int {
    match (c.rf, c.rs) {
        (Some(f), Some(s)) => (61 + f) * (61 + s),
        (Some(f), None) => 61 + f,
        (None, Some(s)) => 61 + s,
        (None, None) => 1,
    }
}

/// Descending order on exact RRF scores, by cross-multiplication.
pub open spec fn cand_ge(a: Cand, b: Cand) -> bool {
    rrf_num(a) * rrf_den(b) >= rrf_num(b) * rrf_den(a)
}

pub open spec fn sorted_desc(s: Seq<Cand>) -> bool {
    forall|i: int, j: int| 0 <= i < j < s.len() ==> cand_ge(#[trigger] s[i], #[trigger] s[j])
}

/// The fused score in millionths, rounded down.
pub open spec fn score_micros_of(c: Cand) -> int {
    1000000 * rrf_num(c) / rrf_den(c)
}

pub open spec fn mt_of(c: Cand) -> MatchType {
    match (c.rf, c.rs) {
        (Some(_), Some(_)) => MatchType::Both,
        (Some(_), None) => MatchType::Fulltext,
        _ => MatchType::Semantic,
    }
}

/// How one output row reflects a candidate.
pub open spec fn result_matches(r: SearchResult, c: Cand) -> bool {
    &&& r.id@ == c.id@
    &&& r.title@ == c.title@
    &&& r.snippet@ == c.snippet@
    &&& r.score_micros == score_micros_of(c)
    &&& r.match_type == mt_of(c)
}

/// Ranks stay below this bound so the exact cross-multiplied
/// comparisons fit comfortably in machine words.
pub const RANK_CAP: usize = 2000000;

fn find_rank(rs: &Vec<SearchResult>, id: &str) -> (r: Option<usize>)
    requires
        distinct_ids(rs@),
    ensures
        r == sem_rank_opt(rs@, id@),
{
    let mut i: usize = 0;
    while i < rs.len()
        invariant
            i <= rs@.len(),
            distinct_ids(rs@),
            forall|k: int| 0 <= k < i ==> rs@[k].id@ != id@,
        decreases rs@.len() - i,
    {
        if str_eq(rs[i].id.as_str(), id) {
            proof {
                let w = rank_of(rs@, id@);
                assert(rs@[w].id@ == id@);
                if w != i as int {
                    assert(rs@[w].id@ != rs@[i as int].id@);
                }
            }
            return Some(i);
        }
        i = i + 1;
    }
    None
}

fn has_rid_exec(rs: &Vec<SearchResult>, id: &str) -> (r: bool)
    ensures
        r == has_rid(rs@, id@),
{
    let mut i: usize = 0;
    while i < rs.len()
        invariant
            i <= rs@.len(),
            forall|k: int| 0 <= k < i ==> rs@[k].id@ != id@,
        decreases rs@.len() - i,
    {
        if str_eq(rs[i].id.as_str(), id) {
            return true;
        }
        i = i + 1;
    }
    false
}

/// Decides `cand_ge` on in-range ranks.
fn cand_ge_exec(a: &Cand, b: &Cand) -> (r: bool)
    requires
        rank_in_cap(*a),
        rank_in_cap(*b),
    ensures
        r == cand_ge(*a, *b),
{
    let (na, da) = rrf_parts(a);
    let (nb, db) = rrf_parts(b);
    proof {
        assert((na as int) * (db as int) < 0x100000000000000000000000000000000)
            by (nonlinear_arith)
            requires
                na < 0x10000000000000000,
                db < 0x10000000000000000,
        ;
        assert((nb as int) * (da as int) < 0x100000000000000000000000000000000)
            by (nonlinear_arith)
            requires
                nb < 0x10000000000000000,
                da < 0x10000000000000000,
        ;
    }
    (na as u128) * (db as u128) >= (nb as u128) * (da as u128)
}

/// Both ranks below the cap.
pub open spec fn rank_in_cap(c: Cand) -> bool {
    &&& (c.rf matches Some(f) ==> f < RANK_CAP)
    &&& (c.rs matches Some(s) ==> s < RANK_CAP)
}

fn rrf_parts(c: &Cand) -> (r: (u64, u64))
    requires
        rank_in_cap(*c),
    ensures
        r.0 == rrf_num(*c),
        r.1 == rrf_den(*c),
        r.0 <= 4000122,
        r.1 <= 4000244003721,
{
    match (&c.rf, &c.rs) {
        (Some(f), Some(s)) => {
            let df: u64 = 61 + (*f as u64);
            let ds: u64 = 61 + (*s as u64);
            proof {
                assert(df * ds <= 4000244003721) by (nonlinear_arith)
                    requires
                        61 <= df <= 2000061,
                        61 <= ds <= 2000061,
                ;
            }
            (df + ds, df * ds)
        },
        (Some(f), None) => (1, 61 + (*f as u64)),
        (None, Some(s)) => (1, 61 + (*s as u64)),
        (None, None) => (0, 1),
    }
}

/// Cross-multiplied fraction comparison is transitive for positive
/// denominators.
proof fn lemma_frac_ge_trans(na: int, da: int, nb: int, db: int, nc: int, dc: int)
    requires
        da > 0,
        db > 0,
        dc > 0,
        na * db >= nb * da,
        nb * dc >= nc * db,
    ensures
        na * dc >= nc * da,
{
    assert(na * dc >= nc * da) by (nonlinear_arith)
        requires
            da > 0,
            db > 0,
            dc > 0,
            na * db >= nb * da,
            nb * dc >= nc * db,
    ;
}

proof fn lemma_cand_ge_total(a: Cand, b: Cand)
    ensures
        cand_ge(a, b) || cand_ge(b, a),
{
}

proof fn lemma_den_pos(c: Cand)
    ensures
        rrf_den(c) > 0,
{
    match (c.rf, c.rs) {
        (Some(f), Some(s)) => {
            assert((61 + f) * (61 + s) > 0) by (nonlinear_arith)
                requires
                    f >= 0,
                    s >= 0,
            ;
        },
        _ => {},
    }
}

/// Fuses the two ranked lists with RRF: every note of either list gets
/// the sum of `1/(61 + rank)` over the lists containing it; the result
/// is sorted by that exact score, descending, and cut to `limit`.
#[verifier::rlimit(100)]
pub fn fuse(fts: &Vec<SearchResult>, sem: &Vec<SearchResult>, limit: usize) -> (r: Vec<
    SearchResult,
>)
    requires
        distinct_ids(fts@),
        distinct_ids(sem@),
        fts@.len() <= RANK_CAP,
        sem@.len() <= RANK_CAP,
    ensures
        exists|sorted_c: Seq<Cand>|
            {
                &&& #[trigger] sorted_c.to_multiset() == canon_cands(fts@, sem@).to_multiset()
                &&& sorted_desc(sorted_c)
                &&& r@.len() == (if limit < sorted_c.len() {
                    limit as int
                } else {
                    sorted_c.len() as int
                })
                &&& forall|k: int| 0 <= k < r@.len() ==> result_matches(#[trigger] r@[k], sorted_c[k])
            },
{
    broadcast use vstd::seq_lib::group_to_multiset_ensures;

    let ghost canon = canon_cands(fts@, sem@);
    let ghost fts_part_len = fts@.len() as int;
    // canonical candidates: the lexical list first
    let mut cands: Vec<Cand> = Vec::new();
    let mut k: usize = 0;
    while k < fts.len()
        invariant
            k <= fts@.len(),
            distinct_ids(fts@),
            distinct_ids(sem@),
            canon == canon_cands(fts@, sem@),
            cands@.len() == k,
            forall|i: int| 0 <= i < k ==> #[trigger] cands@[i] == canon[i],
        decreases fts@.len() - k,
    {
        let rs_rank: Option<usize> = find_rank(sem, fts[k].id.as_str());
        let c = Cand {
            id: fts[k].id.clone(),
            title: fts[k].title.clone(),
            snippet: fts[k].snippet.clone(),
            rf: Some(k),
            rs: rs_rank,
        };
        proof {
            assert(canon[k as int].id == fts@[k as int].id);
            assert(canon[k as int].rf == Some(k));
            assert(canon[k as int].rs == sem_rank_opt(sem@, fts@[k as int].id@));
        }
        cands.push(c);
        k = k + 1;
    }
    // then the semantic-only candidates
    let mut j: usize = 0;
    proof {
        assert(sem@.take(0) =~= Seq::<SearchResult>::empty());
    }
    while j < sem.len()
        invariant
            j <= sem@.len(),
            distinct_ids(fts@),
            distinct_ids(sem@),
            canon == canon_cands(fts@, sem@),
            fts_part_len == fts@.len() as int,
            cands@.len() == fts_part_len + sem_only(sem@.take(j as int), fts@).len(),
            forall|i: int| 0 <= i < fts_part_len ==> #[trigger] cands@[i] == canon[i],
            forall|i: int|
                fts_part_len <= i < cands@.len() ==> #[trigger] cands@[i] == cand_of_sem_only(
                    sem@,
                    fts@,
                    sem_only(sem@.take(j as int), fts@),
                    i - fts_part_len,
                ),
            sem_only(sem@.take(j as int), fts@).len() <= j,
            forall|i: int|
                0 <= i < sem_only(sem@.take(j as int), fts@).len() ==> #[trigger] sem_only(
                    sem@.take(j as int),
                    fts@,
                )[i] == sem_only(sem@, fts@)[i],
            sem_only(sem@.take(j as int), fts@).len() <= sem_only(sem@, fts@).len(),
        decreases sem@.len() - j,
    {
        proof {
            assert(sem@.take(j + 1).drop_last() =~= sem@.take(j as int));
            assert(sem@.take(j + 1).last() == sem@[j as int]);
            lemma_sem_only_prefix(sem@, fts@, j as int);
        }
        if !has_rid_exec(fts, sem[j].id.as_str()) {
            let ghost so_len = sem_only(sem@.take(j as int), fts@).len() as int;
            let c = Cand {
                id: sem[j].id.clone(),
                title: sem[j].title.clone(),
                snippet: sem[j].snippet.clone(),
                rf: None,
                rs: Some(j),
            };
            proof {
                assert(sem_only(sem@.take(j + 1), fts@) == sem_only(sem@.take(j as int), fts@).push(
                    sem@[j as int],
                ));
                assert(sem_only(sem@, fts@)[so_len] == sem@[j as int]);
                assert(rank_of(sem@, sem@[j as int].id@) == j as int) by {
                    let w = rank_of(sem@, sem@[j as int].id@);
                    assert(sem@[w].id@ == sem@[j as int].id@) by {
                        assert(has_rid(sem@, sem@[j as int].id@));
                    }
                    if w != j as int {
                        assert(sem@[w].id@ != sem@[j as int].id@);
                    }
                }
            }
            cands.push(c);
        } else {
            proof {
                assert(sem_only(sem@.take(j + 1), fts@) == sem_only(sem@.take(j as int), fts@));
            }
        }
        j = j + 1;
    }
    proof {
        assert(sem@.take(sem@.len() as int) =~= sem@);
        assert forall|i: int| 0 <= i < cands@.len() implies #[trigger] cands@[i] == canon[i] by {
            if i >= fts_part_len {
                assert(cands@[i] == cand_of_sem_only(
                    sem@,
                    fts@,
                    sem_only(sem@, fts@),
                    i - fts_part_len,
                ));
                assert(canon[i] == canon_cands(fts@, sem@)[i]);
            }
        }
        assert(cands@ =~= canon);
        lemma_canon_rank_cap(fts@, sem@);
    }

    // sort by the exact score, descending
    let mut sorted: Vec<Cand> = Vec::new();
    let mut i: usize = 0;
    proof {
        assert(cands@.take(0) =~= Seq::<Cand>::empty());
        assert(sorted@.to_multiset() =~= cands@.take(0).to_multiset());
    }
    while i < cands.len()
        invariant
            i <= cands@.len(),
            cands@ == canon,
            canon == canon_cands(fts@, sem@),
            forall|q: int| 0 <= q < canon.len() ==> rank_in_cap(#[trigger] canon[q]),
            sorted@.to_multiset() == cands@.take(i as int).to_multiset(),
            sorted@.len() == i,
            sorted_desc(sorted@),
            forall|q: int| 0 <= q < sorted@.len() ==> rank_in_cap(#[trigger] sorted@[q]),
        decreases cands@.len() - i,
    {
        let x = clone_cand(&cands[i]);
        let mut p: usize = 0;
        while p < sorted.len() && cand_ge_exec(&sorted[p], &x)
            invariant
                p <= sorted@.len(),
                cands@ == canon,
                rank_in_cap(x),
                forall|q: int| 0 <= q < sorted@.len() ==> rank_in_cap(#[trigger] sorted@[q]),
                forall|q: int| 0 <= q < p ==> cand_ge(#[trigger] sorted@[q], x),
            decreases sorted@.len() - p,
        {
            p = p + 1;
        }
        let ghost old_sorted = sorted@;
        sorted.insert(p, x);
        proof {
            assert(x == cands@[i as int]);
            crate::order::lemma_to_multiset_insert(old_sorted, p as int, x);
            assert(cands@.take(i + 1) =~= cands@.take(i as int).push(cands@[i as int]));
            cands@.take(i as int).to_multiset_ensures();
            assert(cands@.take(i as int).push(cands@[i as int]).to_multiset() =~= cands@.take(
                i as int,
            ).to_multiset().insert(cands@[i as int]));
            assert(cands@.take(i + 1).to_multiset() =~= cands@.take(
                i as int,
            ).to_multiset().insert(cands@[i as int]));
            assert forall|a: int, b: int|
                0 <= a < b < sorted@.len() implies cand_ge(
                #[trigger] sorted@[a],
                #[trigger] sorted@[b],
            ) by {
                lemma_den_pos(sorted@[a]);
                lemma_den_pos(sorted@[b]);
                if a < p && b > p {
                    assert(sorted@[a] == old_sorted[a]);
                    assert(sorted@[b] == old_sorted[b - 1]);
                } else if a == p && b > p {
                    assert(sorted@[b] == old_sorted[b - 1]);
                    if p < old_sorted.len() {
                        assert(!cand_ge(old_sorted[p as int], x));
                        lemma_cand_ge_total(old_sorted[p as int], x);
                        lemma_den_pos(old_sorted[p as int]);
                        if b - 1 > p {
                            lemma_frac_ge_trans(
                                rrf_num(x),
                                rrf_den(x),
                                rrf_num(old_sorted[p as int]),
                                rrf_den(old_sorted[p as int]),
                                rrf_num(old_sorted[b - 1]),
                                rrf_den(old_sorted[b - 1]),
                            );
                        }
                    }
                } else if a < p && b == p {
                    assert(sorted@[a] == old_sorted[a]);
                } else if a < b && b < p {
                    assert(sorted@[a] == old_sorted[a]);
                    assert(sorted@[b] == old_sorted[b]);
                } else if a == p && b == p {
                } else {
                }
            }
        }
        i = i + 1;
    }
    proof {
        assert(cands@.take(cands@.len() as int) =~= cands@);
    }

    // emit the top of the list
    let take_n: usize = if limit < sorted.len() {
        limit
    } else {
        sorted.len()
    };
    let mut out: Vec<SearchResult> = Vec::new();
    let mut t: usize = 0;
    while t < take_n
        invariant
            t <= take_n,
            take_n <= sorted@.len(),
            forall|q: int| 0 <= q < sorted@.len() ==> rank_in_cap(#[trigger] sorted@[q]),
            out@.len() == t,
            forall|q: int| 0 <= q < t ==> result_matches(#[trigger] out@[q], sorted@[q]),
        decreases take_n - t,
    {
        let c = &sorted[t];
        let (num, den) = rrf_parts(c);
        proof {
            lemma_den_pos(*c);
        }
        let micros: i64 = ((1000000u64 * num) / den) as i64;
        let mt: MatchType = match (&c.rf, &c.rs) {
            (Some(_), Some(_)) => MatchType::Both,
            (Some(_), None) => MatchType::Fulltext,
            _ => MatchType::Semantic,
        };
        out.push(
            SearchResult {
                id: c.id.clone(),
                title: c.title.clone(),
                snippet: c.snippet.clone(),
                score_micros: micros,
                match_type: mt,
            },
        );
        t = t + 1;
    }
    proof {
        let sc = sorted@;
        assert(sc.to_multiset() == canon_cands(fts@, sem@).to_multiset());
        assert(sorted_desc(sc));
        assert(out@.len() == (if limit < sc.len() {
            limit as int
        } else {
            sc.len() as int
        }));
    }
    out
}

/// The candidate built from one semantic-only entry.
pub open spec fn cand_of_sem_only(
    sem: Seq<SearchResult>,
    fts: Seq<SearchResult>,
    so: Seq<SearchResult>,
    j: int,
) -> Cand {
    Cand {
        id: so[j].id,
        title: so[j].title,
        snippet: so[j].snippet,
        rf: None,
        rs: Some(rank_of(sem, so[j].id@) as usize),
    }
}

fn clone_cand(c: &Cand) -> (r: Cand)
    ensures
        r == *c,
{
    Cand {
        id: c.id.clone(),
        title: c.title.clone(),
        snippet: c.snippet.clone(),
        rf: match &c.rf {
            Some(f) => Some(*f),
            None => None,
        },
        rs: match &c.rs {
            Some(s) => Some(*s),
            None => None,
        },
    }
}

/// Every canonical candidate's ranks are below the cap.
proof fn lemma_canon_rank_cap(fts: Seq<SearchResult>, sem: Seq<SearchResult>)
    requires
        fts.len() <= RANK_CAP,
        sem.len() <= RANK_CAP,
    ensures
        forall|q: int|
            0 <= q < canon_cands(fts, sem).len() ==> rank_in_cap(
                #[trigger] canon_cands(fts, sem)[q],
            ),
{
    let canon = canon_cands(fts, sem);
    assert forall|q: int| 0 <= q < canon.len() implies rank_in_cap(#[trigger] canon[q]) by {
        if q < fts.len() {
            if has_rid(sem, fts[q].id@) {
                let w = rank_of(sem, fts[q].id@);
                assert(0 <= w < sem.len() && sem[w].id@ == fts[q].id@);
            }
        } else {
            let j = q - fts.len();
            lemma_sem_only_sub(sem, fts);
            assert(sem.contains(sem_only(sem, fts)[j]));
            let w = rank_of(sem, sem_only(sem, fts)[j].id@);
            assert(0 <= w < sem.len() && sem[w].id@ == sem_only(sem, fts)[j].id@) by {
                let ww = choose|i: int|
                    0 <= i < sem.len() && sem[i] == sem_only(sem, fts)[j];
                assert(sem[ww].id@ == sem_only(sem, fts)[j].id@);
            }
        }
    }
}

/// Semantic-only entries come from the semantic list.
proof fn lemma_sem_only_sub(sem: Seq<SearchResult>, fts: Seq<SearchResult>)
    ensures
        sem_only(sem, fts).len() <= sem.len(),
        forall|k: int|
            0 <= k < sem_only(sem, fts).len() ==> sem.contains(#[trigger] sem_only(sem, fts)[k]),
        forall|k: int|
            0 <= k < sem_only(sem, fts).len() ==> !has_rid(
                fts,
                (#[trigger] sem_only(sem, fts)[k]).id@,
            ),
    decreases sem.len(),
{
    if sem.len() > 0 {
        let dl = sem.drop_last();
        lemma_sem_only_sub(dl, fts);
        let so = sem_only(sem, fts);
        assert forall|k: int| 0 <= k < so.len() implies sem.contains(#[trigger] so[k]) && !has_rid(
            fts,
            so[k].id@,
        ) by {
            if has_rid(fts, sem.last().id@) || k < so.len() - 1 {
                assert(so[k] == sem_only(dl, fts)[k]);
                assert(dl.contains(so[k]));
                let w = choose|w: int| 0 <= w < dl.len() && dl[w] == so[k];
                assert(sem[w] == so[k]);
            } else {
                assert(so[k] == sem.last());
                assert(sem[sem.len() - 1] == so[k]);
            }
        }
    }
}

/// The prefix of the semantic-only entries is the semantic-only entries
/// of the prefix.
proof fn lemma_sem_only_prefix(sem: Seq<SearchResult>, fts: Seq<SearchResult>, j: int)
    requires
        0 <= j < sem.len(),
    ensures
        !has_rid(fts, sem[j].id@) ==> #[trigger] sem_only(sem, fts).len() > sem_only(
            sem.take(j),
            fts,
        ).len() && sem_only(sem, fts)[sem_only(sem.take(j), fts).len() as int] == sem[j],
        forall|x: int|
            0 <= x < sem_only(sem.take(j), fts).len() ==> #[trigger] sem_only(sem.take(j), fts)[x]
                == sem_only(sem, fts)[x],
        sem_only(sem.take(j), fts).len() <= sem_only(sem, fts).len(),
        sem_only(sem.take(j), fts).len() <= j,
    decreases sem.len(),
{
    let dl = sem.drop_last();
    lemma_sem_only_len(sem.take(j), fts);
    if j == sem.len() - 1 {
        assert(sem.take(j) =~= dl);
        if has_rid(fts, sem.last().id@) {
            assert(sem_only(sem, fts) == sem_only(dl, fts));
        } else {
            assert(sem_only(sem, fts) == sem_only(dl, fts).push(sem.last()));
        }
    } else {
        assert(dl[j] == sem[j]);
        assert(dl.take(j) =~= sem.take(j));
        lemma_sem_only_prefix(dl, fts, j);
        if has_rid(fts, sem.last().id@) {
            assert(sem_only(sem, fts) == sem_only(dl, fts));
        } else {
            assert(sem_only(sem, fts) == sem_only(dl, fts).push(sem.last()));
        }
        assert forall|x: int|
            0 <= x < sem_only(sem.take(j), fts).len() implies #[trigger] sem_only(
            sem.take(j),
            fts,
        )[x] == sem_only(sem, fts)[x] by {
            assert(sem_only(sem.take(j), fts)[x] == sem_only(dl.take(j), fts)[x]);
            assert(sem_only(dl.take(j), fts)[x] == sem_only(dl, fts)[x]);
            assert(x < sem_only(dl, fts).len());
            assert(sem_only(dl, fts)[x] == sem_only(sem, fts)[x]);
        }
        if !has_rid(fts, sem[j].id@) {
            assert(sem_only(dl, fts)[sem_only(dl.take(j), fts).len() as int] == dl[j]);
            assert(sem_only(sem, fts)[sem_only(sem.take(j), fts).len() as int] == sem[j]);
        }
    }
}

/// The semantic-only entries of a prefix fit in the prefix.
proof fn lemma_sem_only_len(sem: Seq<SearchResult>, fts: Seq<SearchResult>)
    ensures
        sem_only(sem, fts).len() <= sem.len(),
    decreases sem.len(),
{
    if sem.len() > 0 {
        lemma_sem_only_len(sem.drop_last(), fts);
    }
}


/// The notes the lexical model matches, in store order.
pub open spec fn fts_list(notes: Seq<Note>, q: Seq<char>) -> Seq<Note>
    decreases notes.len(),
{
    if notes.len() == 0 {
        Seq::empty()
    } else if note_matches(q, notes.last().title@, notes.last().content@) {
        fts_list(notes.drop_last(), q).push(notes.last())
    } else {
        fts_list(notes.drop_last(), q)
    }
}

proof fn lemma_fts_list_prefix(notes: Seq<Note>, q: Seq<char>, j: int)
    requires
        0 <= j < notes.len(),
    ensures
        note_matches(q, notes[j].title@, notes[j].content@) ==> #[trigger] fts_list(
            notes,
            q,
        ).len() > fts_list(notes.take(j), q).len() && fts_list(notes, q)[fts_list(
            notes.take(j),
            q,
        ).len() as int] == notes[j],
        forall|x: int|
            0 <= x < fts_list(notes.take(j), q).len() ==> #[trigger] fts_list(notes.take(j), q)[x]
                == fts_list(notes, q)[x],
        fts_list(notes.take(j), q).len() <= fts_list(notes, q).len(),
        fts_list(notes.take(j), q).len() <= j,
    decreases notes.len(),
{
    let dl = notes.drop_last();
    lemma_fts_list_len(notes.take(j), q);
    if j == notes.len() - 1 {
        assert(notes.take(j) =~= dl);
        if note_matches(q, notes.last().title@, notes.last().content@) {
            assert(fts_list(notes, q) == fts_list(dl, q).push(notes.last()));
        } else {
            assert(fts_list(notes, q) == fts_list(dl, q));
        }
    } else {
        assert(dl[j] == notes[j]);
        assert(dl.take(j) =~= notes.take(j));
        lemma_fts_list_prefix(dl, q, j);
        if note_matches(q, notes.last().title@, notes.last().content@) {
            assert(fts_list(notes, q) == fts_list(dl, q).push(notes.last()));
        } else {
            assert(fts_list(notes, q) == fts_list(dl, q));
        }
        assert forall|x: int|
            0 <= x < fts_list(notes.take(j), q).len() implies #[trigger] fts_list(
            notes.take(j),
            q,
        )[x] == fts_list(notes, q)[x] by {
            assert(fts_list(notes.take(j), q)[x] == fts_list(dl.take(j), q)[x]);
            assert(fts_list(dl.take(j), q)[x] == fts_list(dl, q)[x]);
            assert(x < fts_list(dl, q).len());
            assert(fts_list(dl, q)[x] == fts_list(notes, q)[x]);
        }
        if note_matches(q, notes[j].title@, notes[j].content@) {
            assert(fts_list(dl, q)[fts_list(dl.take(j), q).len() as int] == dl[j]);
            assert(fts_list(notes, q)[fts_list(notes.take(j), q).len() as int] == notes[j]);
        }
    }
}

proof fn lemma_fts_list_len(notes: Seq<Note>, q: Seq<char>)
    ensures
        fts_list(notes, q).len() <= notes.len(),
        forall|k: int|
            0 <= k < fts_list(notes, q).len() ==> notes.contains(#[trigger] fts_list(notes, q)[k]),
    decreases notes.len(),
{
    if notes.len() > 0 {
        let dl = notes.drop_last();
        lemma_fts_list_len(dl, q);
        let m = fts_list(notes, q);
        assert forall|k: int| 0 <= k < m.len() implies notes.contains(#[trigger] m[k]) by {
            if !note_matches(q, notes.last().title@, notes.last().content@) || k < m.len() - 1 {
                assert(m[k] == fts_list(dl, q)[k]);
                assert(dl.contains(m[k]));
                let w = choose|w: int| 0 <= w < dl.len() && dl[w] == m[k];
                assert(notes[w] == m[k]);
            } else {
                assert(m[k] == notes.last());
                assert(notes[notes.len() - 1] == m[k]);
            }
        }
    }
}

proof fn lemma_fts_list_distinct(notes: Seq<Note>, q: Seq<char>, a: int, b: int)
    requires
        forall|x: int, y: int|
            0 <= x < y < notes.len() ==> (#[trigger] notes[x]).id@ != (#[trigger] notes[y]).id@,
        0 <= a < b < fts_list(notes, q).len(),
    ensures
        fts_list(notes, q)[a].id@ != fts_list(notes, q)[b].id@,
    decreases notes.len(),
{
    if notes.len() > 0 {
        let dl = notes.drop_last();
        let m = fts_list(notes, q);
        assert forall|x: int, y: int|
            0 <= x < y < dl.len() implies (#[trigger] dl[x]).id@ != (#[trigger] dl[y]).id@ by {
            assert(dl[x] == notes[x]);
            assert(dl[y] == notes[y]);
        }
        if !note_matches(q, notes.last().title@, notes.last().content@) {
            lemma_fts_list_distinct(dl, q, a, b);
        } else {
            if b < m.len() - 1 {
                lemma_fts_list_distinct(dl, q, a, b);
            } else {
                lemma_fts_list_len(dl, q);
                assert(m[a] == fts_list(dl, q)[a]);
                assert(dl.contains(m[a]));
                let w = choose|w: int| 0 <= w < dl.len() && dl[w] == m[a];
                assert(notes[w] == m[a]);
                assert(m[b] == notes.last());
                assert(notes[w].id@ != notes[notes.len() - 1].id@);
            }
        }
    }
}

/// What the lexical mode returns for a query and a limit.
pub open spec fn is_fulltext_results(
    rs: Seq<SearchResult>,
    notes: Seq<Note>,
    q: Seq<char>,
    limit: int,
) -> bool {
    if sanitized_empty(q) {
        rs.len() == 0
    } else {
        let m = fts_list(notes, q);
        &&& rs.len() == (if limit < m.len() {
            limit
        } else {
            m.len() as int
        })
        &&& forall|k: int|
            0 <= k < rs.len() ==> (#[trigger] rs[k]).id@ == m[k].id@ && rs[k].title@ == m[k].title@
                && rs[k].snippet@ == snippet_spec(m[k].content@) && rs[k].score_micros == 1000000
                && rs[k].match_type == MatchType::Fulltext
    }
}

/// The hits whose notes exist, in rank order.
pub open spec fn hits_kept(hits: Seq<SemanticHit>, notes: Seq<Note>) -> Seq<SemanticHit>
    decreases hits.len(),
{
    if hits.len() == 0 {
        Seq::empty()
    } else if has_note_id(notes, hits.last().note_id@) {
        hits_kept(hits.drop_last(), notes).push(hits.last())
    } else {
        hits_kept(hits.drop_last(), notes)
    }
}

proof fn lemma_hits_kept_prefix(hits: Seq<SemanticHit>, notes: Seq<Note>, j: int)
    requires
        0 <= j < hits.len(),
    ensures
        has_note_id(notes, hits[j].note_id@) ==> #[trigger] hits_kept(hits, notes).len()
            > hits_kept(hits.take(j), notes).len() && hits_kept(hits, notes)[hits_kept(
            hits.take(j),
            notes,
        ).len() as int] == hits[j],
        forall|x: int|
            0 <= x < hits_kept(hits.take(j), notes).len() ==> #[trigger] hits_kept(
                hits.take(j),
                notes,
            )[x] == hits_kept(hits, notes)[x],
        hits_kept(hits.take(j), notes).len() <= hits_kept(hits, notes).len(),
        hits_kept(hits.take(j), notes).len() <= j,
    decreases hits.len(),
{
    let dl = hits.drop_last();
    lemma_hits_kept_len(hits.take(j), notes);
    if j == hits.len() - 1 {
        assert(hits.take(j) =~= dl);
        if has_note_id(notes, hits.last().note_id@) {
            assert(hits_kept(hits, notes) == hits_kept(dl, notes).push(hits.last()));
        } else {
            assert(hits_kept(hits, notes) == hits_kept(dl, notes));
        }
    } else {
        assert(dl[j] == hits[j]);
        assert(dl.take(j) =~= hits.take(j));
        lemma_hits_kept_prefix(dl, notes, j);
        if has_note_id(notes, hits.last().note_id@) {
            assert(hits_kept(hits, notes) == hits_kept(dl, notes).push(hits.last()));
        } else {
            assert(hits_kept(hits, notes) == hits_kept(dl, notes));
        }
        assert forall|x: int|
            0 <= x < hits_kept(hits.take(j), notes).len() implies #[trigger] hits_kept(
            hits.take(j),
            notes,
        )[x] == hits_kept(hits, notes)[x] by {
            assert(hits_kept(hits.take(j), notes)[x] == hits_kept(dl.take(j), notes)[x]);
            assert(hits_kept(dl.take(j), notes)[x] == hits_kept(dl, notes)[x]);
            assert(x < hits_kept(dl, notes).len());
            assert(hits_kept(dl, notes)[x] == hits_kept(hits, notes)[x]);
        }
        if has_note_id(notes, hits[j].note_id@) {
            assert(hits_kept(dl, notes)[hits_kept(dl.take(j), notes).len() as int] == dl[j]);
            assert(hits_kept(hits, notes)[hits_kept(hits.take(j), notes).len() as int] == hits[j]);
        }
    }
}

proof fn lemma_hits_kept_len(hits: Seq<SemanticHit>, notes: Seq<Note>)
    ensures
        hits_kept(hits, notes).len() <= hits.len(),
    decreases hits.len(),
{
    if hits.len() > 0 {
        lemma_hits_kept_len(hits.drop_last(), notes);
    }
}

/// What the semantic mode returns for a ranked hit list and a limit.
pub open spec fn is_semantic_results(
    rs: Seq<SearchResult>,
    notes: Seq<Note>,
    hits: Seq<SemanticHit>,
    limit: int,
) -> bool {
    let m = hits_kept(hits, notes);
    &&& rs.len() == (if limit < m.len() {
        limit
    } else {
        m.len() as int
    })
    &&& forall|k: int|
        0 <= k < rs.len() ==> {
            let w = crate::store::idx_of_note(notes, m[k].note_id@);
            &&& (#[trigger] rs[k]).id@ == m[k].note_id@
            &&& 0 <= w < notes.len()
            &&& rs[k].title@ == notes[w].title@
            &&& rs[k].snippet@ == snippet_spec(notes[w].content@)
            &&& rs[k].score_micros == m[k].similarity_micros
            &&& rs[k].match_type == MatchType::Semantic
        }
}

impl Store {
    /// Full-text search against the lexical match model: matching notes
    /// in store order, with unit score.
    pub fn fulltext_search(&self, query: &str, limit: usize) -> (r: Vec<SearchResult>)
        requires
            self.wf(),
        ensures
            is_fulltext_results(r@, self.notes@, query@, limit as int),
            distinct_ids(r@),
            r@.len() <= limit,
    {
        let sanitized: String = crate::fts::sanitize_fts_query(query);
        if sanitized.as_str().unicode_len() == 0 {
            proof {
                lemma_sanitized_len(query@);
            }
            return Vec::new();
        }
        proof {
            lemma_sanitized_len(query@);
        }
        let ghost m = fts_list(self.notes@, query@);
        let mut out: Vec<SearchResult> = Vec::new();
        let mut i: usize = 0;
        proof {
            assert(self.notes@.take(0) =~= Seq::<Note>::empty());
        }
        while i < self.notes.len() && out.len() < limit
            invariant
                self.wf(),
                i <= self.notes@.len(),
                m == fts_list(self.notes@, query@),
                out@.len() == fts_list(self.notes@.take(i as int), query@).len(),
                out@.len() <= limit,
                forall|x: int|
                    0 <= x < fts_list(self.notes@.take(i as int), query@).len()
                        ==> #[trigger] fts_list(self.notes@.take(i as int), query@)[x] == m[x],
                fts_list(self.notes@.take(i as int), query@).len() <= m.len(),
                forall|k: int|
                    0 <= k < out@.len() ==> (#[trigger] out@[k]).id@ == m[k].id@ && out@[k].title@
                        == m[k].title@ && out@[k].snippet@ == snippet_spec(m[k].content@)
                        && out@[k].score_micros == 1000000 && out@[k].match_type
                        == MatchType::Fulltext,
                out@.len() == limit ==> m.len() >= limit,
            decreases self.notes@.len() - i,
        {
            proof {
                lemma_fts_list_prefix(self.notes@, query@, i as int);
            }
            let n = &self.notes[i];
            if note_matches_exec(query, n.title.as_str(), n.content.as_str()) {
                out.push(
                    SearchResult {
                        id: n.id.clone(),
                        title: n.title.clone(),
                        snippet: make_snippet(n.content.as_str()),
                        score_micros: 1000000,
                        match_type: MatchType::Fulltext,
                    },
                );
                proof {
                    assert(fts_list(self.notes@.take(i + 1), query@) == fts_list(
                        self.notes@.take(i as int),
                        query@,
                    ).push(self.notes@[i as int])) by {
                        assert(self.notes@.take(i + 1).drop_last() =~= self.notes@.take(i as int));
                        assert(self.notes@.take(i + 1).last() == self.notes@[i as int]);
                    }
                    lemma_fts_list_prefix(self.notes@, query@, i as int);
                }
            } else {
                proof {
                    assert(fts_list(self.notes@.take(i + 1), query@) == fts_list(
                        self.notes@.take(i as int),
                        query@,
                    )) by {
                        assert(self.notes@.take(i + 1).drop_last() =~= self.notes@.take(i as int));
                        assert(self.notes@.take(i + 1).last() == self.notes@[i as int]);
                    }
                }
            }
            i = i + 1;
        }
        proof {
            if i == self.notes@.len() {
                assert(self.notes@.take(i as int) =~= self.notes@);
            }
            assert forall|a: int, b: int|
                0 <= a < b < out@.len() implies (#[trigger] out@[a]).id@
                != (#[trigger] out@[b]).id@ by {
                lemma_fts_list_distinct(self.notes@, query@, a, b);
            }
        }
        out
    }

    /// Semantic search: joins the host's ranked neighbour list against
    /// the notes, dropping hits whose notes are gone.
    pub fn semantic_search(&self, hits: &Vec<SemanticHit>, limit: usize) -> (r: Vec<SearchResult>)
        requires
            self.wf(),
            forall|a: int, b: int|
                0 <= a < b < hits@.len() ==> (#[trigger] hits@[a]).note_id@
                    != (#[trigger] hits@[b]).note_id@,
        ensures
            is_semantic_results(r@, self.notes@, hits@, limit as int),
            distinct_ids(r@),
            r@.len() <= limit,
    {
        let ghost m = hits_kept(hits@, self.notes@);
        let mut out: Vec<SearchResult> = Vec::new();
        let mut i: usize = 0;
        proof {
            assert(hits@.take(0) =~= Seq::<SemanticHit>::empty());
        }
        while i < hits.len() && out.len() < limit
            invariant
                self.wf(),
                i <= hits@.len(),
                m == hits_kept(hits@, self.notes@),
                forall|a: int, b: int|
                    0 <= a < b < hits@.len() ==> (#[trigger] hits@[a]).note_id@
                        != (#[trigger] hits@[b]).note_id@,
                out@.len() == hits_kept(hits@.take(i as int), self.notes@).len(),
                out@.len() <= limit,
                forall|x: int|
                    0 <= x < hits_kept(hits@.take(i as int), self.notes@).len()
                        ==> #[trigger] hits_kept(hits@.take(i as int), self.notes@)[x] == m[x],
                hits_kept(hits@.take(i as int), self.notes@).len() <= m.len(),
                forall|k: int|
                    0 <= k < out@.len() ==> {
                        let w = crate::store::idx_of_note(self.notes@, m[k].note_id@);
                        &&& (#[trigger] out@[k]).id@ == m[k].note_id@
                        &&& 0 <= w < self.notes@.len()
                        &&& out@[k].title@ == self.notes@[w].title@
                        &&& out@[k].snippet@ == snippet_spec(self.notes@[w].content@)
                        &&& out@[k].score_micros == m[k].similarity_micros
                        &&& out@[k].match_type == MatchType::Semantic
                    },
                out@.len() == limit ==> m.len() >= limit,
            decreases hits@.len() - i,
        {
            proof {
                lemma_hits_kept_prefix(hits@, self.notes@, i as int);
            }
            match self.find_note_index(hits[i].note_id.as_str()) {
                Some(w) => {
                    let n = &self.notes[w];
                    proof {
                        let ws = crate::store::idx_of_note(self.notes@, hits@[i as int].note_id@);
                        assert(self.notes@[ws].id@ == hits@[i as int].note_id@) by {
                            assert(has_note_id(self.notes@, hits@[i as int].note_id@));
                        }
                        if ws != w as int {
                            assert(self.notes@[w as int].id@ == hits@[i as int].note_id@);
                        }
                        assert(hits_kept(hits@.take(i + 1), self.notes@) == hits_kept(
                            hits@.take(i as int),
                            self.notes@,
                        ).push(hits@[i as int])) by {
                            assert(hits@.take(i + 1).drop_last() =~= hits@.take(i as int));
                            assert(hits@.take(i + 1).last() == hits@[i as int]);
                        }
                    }
                    out.push(
                        SearchResult {
                            id: hits[i].note_id.clone(),
                            title: n.title.clone(),
                            snippet: make_snippet(n.content.as_str()),
                            score_micros: hits[i].similarity_micros,
                            match_type: MatchType::Semantic,
                        },
                    );
                },
                None => {
                    proof {
                        assert(hits_kept(hits@.take(i + 1), self.notes@) == hits_kept(
                            hits@.take(i as int),
                            self.notes@,
                        )) by {
                            assert(hits@.take(i + 1).drop_last() =~= hits@.take(i as int));
                            assert(hits@.take(i + 1).last() == hits@[i as int]);
                        }
                    }
                },
            }
            i = i + 1;
        }
        proof {
            if i == hits@.len() {
                assert(hits@.take(i as int) =~= hits@);
            }
            assert forall|a: int, b: int|
                0 <= a < b < out@.len() implies (#[trigger] out@[a]).id@
                != (#[trigger] out@[b]).id@ by {
                lemma_hits_kept_distinct(hits@, self.notes@, a, b);
            }
        }
        out
    }

    /// Runs a search in the requested mode. The host passes the ranked
    /// neighbour list from the vector index; the lexical mode ignores
    /// it. A blank query is rejected.
    pub fn search(
        &self,
        query: &str,
        mode: SearchMode,
        hits: &Vec<SemanticHit>,
        limit: usize,
    ) -> (r: Result<Vec<SearchResult>, SunderError>)
        requires
            self.wf(),
            limit <= 1000000,
            forall|a: int, b: int|
                0 <= a < b < hits@.len() ==> (#[trigger] hits@[a]).note_id@
                    != (#[trigger] hits@[b]).note_id@,
        ensures
            r is Ok <==> crate::text::trim_spec(query@).len() > 0,
            r matches Err(e) ==> e is EmptyQuery,
            r matches Ok(rs) ==> match mode {
                SearchMode::Fulltext => is_fulltext_results(
                    rs@,
                    self.notes@,
                    crate::text::trim_spec(query@),
                    limit as int,
                ),
                SearchMode::Semantic => is_semantic_results(
                    rs@,
                    self.notes@,
                    hits@,
                    limit as int,
                ),
                SearchMode::Hybrid => exists|
                    ftsr: Seq<SearchResult>,
                    semr: Seq<SearchResult>,
                    sorted_c: Seq<Cand>,
                |
                    {
                        &&& #[trigger] is_fulltext_results(
                            ftsr,
                            self.notes@,
                            crate::text::trim_spec(query@),
                            2 * limit as int,
                        )
                        &&& #[trigger] is_semantic_results(
                            semr,
                            self.notes@,
                            hits@,
                            2 * limit as int,
                        )
                        &&& #[trigger] sorted_c.to_multiset() == canon_cands(
                            ftsr,
                            semr,
                        ).to_multiset()
                        &&& sorted_desc(sorted_c)
                        &&& rs@.len() == (if (limit as int) < sorted_c.len() {
                            limit as int
                        } else {
                            sorted_c.len() as int
                        })
                        &&& forall|k: int|
                            0 <= k < rs@.len() ==> result_matches(#[trigger] rs@[k], sorted_c[k])
                    },
            },
    {
        let trimmed: String = crate::text::trim(query);
        if trimmed.as_str().unicode_len() == 0 {
            return Err(SunderError::EmptyQuery);
        }
        match mode {
            SearchMode::Fulltext => Ok(self.fulltext_search(trimmed.as_str(), limit)),
            SearchMode::Semantic => Ok(self.semantic_search(hits, limit)),
            SearchMode::Hybrid => {
                let ftsr = self.fulltext_search(trimmed.as_str(), 2 * limit);
                let semr = self.semantic_search(hits, 2 * limit);
                let fused = fuse(&ftsr, &semr, limit);
                proof {
                    assert(ftsr@.len() <= RANK_CAP);
                    assert(semr@.len() <= RANK_CAP);
                }
                Ok(fused)
            },
        }
    }
}

/// Kept hits keep distinct ids.
proof fn lemma_hits_kept_distinct(hits: Seq<SemanticHit>, notes: Seq<Note>, a: int, b: int)
    requires
        forall|x: int, y: int|
            0 <= x < y < hits.len() ==> (#[trigger] hits[x]).note_id@
                != (#[trigger] hits[y]).note_id@,
        0 <= a < b < hits_kept(hits, notes).len(),
    ensures
        hits_kept(hits, notes)[a].note_id@ != hits_kept(hits, notes)[b].note_id@,
    decreases hits.len(),
{
    if hits.len() > 0 {
        let dl = hits.drop_last();
        let m = hits_kept(hits, notes);
        assert forall|x: int, y: int|
            0 <= x < y < dl.len() implies (#[trigger] dl[x]).note_id@
            != (#[trigger] dl[y]).note_id@ by {
            assert(dl[x] == hits[x]);
            assert(dl[y] == hits[y]);
        }
        if !has_note_id(notes, hits.last().note_id@) {
            lemma_hits_kept_distinct(dl, notes, a, b);
        } else {
            if b < m.len() - 1 {
                lemma_hits_kept_distinct(dl, notes, a, b);
            } else {
                lemma_hits_kept_sub(dl, notes);
                assert(m[a] == hits_kept(dl, notes)[a]);
                assert(dl.contains(m[a]));
                let w = choose|w: int| 0 <= w < dl.len() && dl[w] == m[a];
                assert(hits[w] == m[a]);
                assert(m[b] == hits.last());
                assert(hits[w].note_id@ != hits[hits.len() - 1].note_id@);
            }
        }
    }
}

proof fn lemma_hits_kept_sub(hits: Seq<SemanticHit>, notes: Seq<Note>)
    ensures
        hits_kept(hits, notes).len() <= hits.len(),
        forall|k: int|
            0 <= k < hits_kept(hits, notes).len() ==> hits.contains(
                #[trigger] hits_kept(hits, notes)[k],
            ),
    decreases hits.len(),
{
    if hits.len() > 0 {
        let dl = hits.drop_last();
        lemma_hits_kept_sub(dl, notes);
        let m = hits_kept(hits, notes);
        assert forall|k: int| 0 <= k < m.len() implies hits.contains(#[trigger] m[k]) by {
            if !has_note_id(notes, hits.last().note_id@) || k < m.len() - 1 {
                assert(m[k] == hits_kept(dl, notes)[k]);
                assert(dl.contains(m[k]));
                let w = choose|w: int| 0 <= w < dl.len() && dl[w] == m[k];
                assert(hits[w] == m[k]);
            } else {
                assert(m[k] == hits.last());
                assert(hits[hits.len() - 1] == m[k]);
            }
        }
    }
}

/// An empty sanitized query means no kept tokens and the other way
/// round.
proof fn lemma_sanitized_len(q: Seq<char>)
    ensures
        (crate::fts::sanitize_spec(q).len() == 0) == sanitized_empty(q),
{
    let ts = sanitize_tokens(tokens_of(q));
    if ts.len() > 0 {
        assert(crate::fts::sanitize_spec(q).len() > 0) by {
            lemma_join_first_quoted(ts, tokens_of(q));
        }
    }
}

/// Every sanitized token is quoted, so a non-empty token list joins to
/// a non-empty string.
proof fn lemma_join_first_quoted(ts: Seq<Seq<char>>, toks: Seq<Seq<char>>)
    requires
        ts == sanitize_tokens(toks),
        ts.len() > 0,
    ensures
        crate::snippet::join_sp(ts).len() > 0,
{
    lemma_sanitize_tokens_quoted(toks);
    assert(ts[0].len() >= 2);
    if ts.len() == 1 {
        assert(crate::snippet::join_sp(ts) == ts[0]);
    } else {
        assert(crate::snippet::join_sp(ts) == ts[0] + seq![' '] + crate::snippet::join_sp(
            ts.drop_first(),
        ));
    }
}

/// Sanitized tokens are the quoted forms, at least two characters each.
proof fn lemma_sanitize_tokens_quoted(toks: Seq<Seq<char>>)
    ensures
        forall|k: int|
            0 <= k < sanitize_tokens(toks).len() ==> (#[trigger] sanitize_tokens(toks)[k]).len()
                >= 2,
    decreases toks.len(),
{
    if toks.len() > 0 {
        lemma_sanitize_tokens_quoted(toks.drop_first());
        let ts = sanitize_tokens(toks);
        if !crate::fts::is_excluded_token(toks[0]) {
            assert forall|k: int| 0 <= k < ts.len() implies (#[trigger] ts[k]).len() >= 2 by {
                if k == 0 {
                    assert(ts[0] == crate::fts::quoted(toks[0]));
                } else {
                    assert(ts[k] == sanitize_tokens(toks.drop_first())[k - 1]);
                }
            }
        } else {
            assert(ts == sanitize_tokens(toks.drop_first()));
            assert forall|k: int| 0 <= k < ts.len() implies (#[trigger] ts[k]).len() >= 2 by {
                assert(ts[k] == sanitize_tokens(toks.drop_first())[k]);
            }
        }
    }
}

} // verus!
