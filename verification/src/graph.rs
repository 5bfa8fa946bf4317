//! The pairwise similarity cache and the graph view derived from it.
//!
//! Cosine similarities are computed by the host over the stored vectors
//! (floating point stays outside this crate) and handed in as fixed-point
//! millionths; this module owns which pairs exist, their canonical
//! ordering, and the clustering of the resulting graph.

use vstd::prelude::*;
use crate::chars::{lex_lt, str_lt, str_eq};
use crate::cluster::{first_occurrence, labels_after, max_plus_one, union_find_clusters};
use crate::delete::{edges_kept, lemma_edges_kept, emb_kept, lemma_emb_kept};
use crate::errors::SunderError;
use crate::store::{has_note_id, idx_of_note, EdgeRow, EmbeddingRow, Note, Store};

verus! {

/// One graph node: a note with its connected-component cluster.
pub struct GraphNode {
    pub id: String,
    pub title: String,
    pub cluster: u32,
}

/// One graph edge: a cached similarity at or above the threshold.
pub struct GraphEdge {
    pub source: String,
    pub target: String,
    pub similarity_micros: i64,
}

/// The graph view handed to the host.
pub struct GraphData {
    pub nodes: Vec<GraphNode>,
    pub edges: Vec<GraphEdge>,
}

/// The ordered pairs `(i, j)` with `from <= i < j < n`, row by row.
pub open spec fn pairs_from(n: int, i: int) -> Seq<(usize, usize)>
    decreases n - i, n,
{
    if i < 0 || i >= n {
        Seq::empty()
    } else {
        row_pairs(n, i, i + 1) + pairs_from(n, i + 1)
    }
}

/// The pairs `(i, j)` for one row `i`, with `j` running to `n`.
pub open spec fn row_pairs(n: int, i: int, j: int) -> Seq<(usize, usize)>
    decreases n - j,
{
    if j < 0 || j >= n {
        Seq::empty()
    } else {
        seq![(i as usize, j as usize)] + row_pairs(n, i, j + 1)
    }
}

proof fn lemma_row_pairs_len(n: int, i: int, j: int)
    requires
        0 <= j <= n,
    ensures
        row_pairs(n, i, j).len() == n - j,
    decreases n - j,
{
    if j < n {
        lemma_row_pairs_len(n, i, j + 1);
    }
}

/// The number of unordered pairs of `m` items.
pub open spec fn tri(m: int) -> int
    decreases m,
{
    if m <= 0 {
        0
    } else {
        (m - 1) + tri(m - 1)
    }
}

/// `tri` is the usual closed form.
pub proof fn lemma_tri_formula(m: int)
    requires
        m >= 0,
    ensures
        2 * tri(m) == m * (m - 1),
    decreases m,
{
    if m > 0 {
        lemma_tri_formula(m - 1);
        let x = tri(m - 1);
        assert(tri(m) == (m - 1) + x);
        assert(2 * ((m - 1) + x) == m * (m - 1)) by (nonlinear_arith)
            requires
                2 * x == (m - 1) * (m - 2),
        ;
        assert(2 * tri(m) == 2 * ((m - 1) + x));
    } else {
        assert(m == 0);
        assert(m * (m - 1) == 0) by (nonlinear_arith)
            requires
                m == 0,
        ;
    }
}

/// A full cache rebuild writes one row per unordered pair of embedded
/// notes: twice the row count is `n * (n - 1)`.
pub proof fn lemma_full_cache_edge_count(n: int)
    requires
        0 <= n,
    ensures
        2 * (pairs_from(n, 0).len() as int) == n * (n - 1),
{
    lemma_pairs_count(n, 0);
    lemma_tri_formula(n);
}

/// A full enumeration holds one pair per unordered pair of rows: what a
/// complete cache rebuild produces for `n` embedded notes.
pub proof fn lemma_pairs_count(n: int, i: int)
    requires
        0 <= i <= n,
    ensures
        pairs_from(n, i).len() == tri(n - i),
    decreases n - i,
{
    if i < n {
        lemma_pairs_count(n, i + 1);
        lemma_row_pairs_len(n, i, i + 1);
        assert(pairs_from(n, i) == row_pairs(n, i, i + 1) + pairs_from(n, i + 1));
    }
}

proof fn lemma_row_pairs_bounds(n: int, i: int, j: int, p: int)
    requires
        0 <= i < j <= n,
        n <= usize::MAX,
        0 <= p < row_pairs(n, i, j).len(),
    ensures
        row_pairs(n, i, j)[p].0 == i as usize,
        i < row_pairs(n, i, j)[p].1 < n,
        j <= row_pairs(n, i, j)[p].1,
        row_pairs(n, i, j)[p].1 == j + p,
    decreases n - j,
{
    if p > 0 {
        lemma_row_pairs_bounds(n, i, j + 1, p - 1);
    }
}

/// Every enumerated pair is ordered and in range, and no pair repeats.
pub proof fn lemma_pairs_bounds(n: int, i: int, p: int)
    requires
        0 <= i <= n,
        n <= usize::MAX,
        0 <= p < pairs_from(n, i).len(),
    ensures
        i <= pairs_from(n, i)[p].0,
        (pairs_from(n, i)[p].0 as int) < (pairs_from(n, i)[p].1 as int) < n,
    decreases n - i,
{
    if i < n {
        let row = row_pairs(n, i, i + 1);
        lemma_row_pairs_len(n, i, i + 1);
        if p < row.len() {
            lemma_row_pairs_bounds(n, i, i + 1, p);
        } else {
            lemma_pairs_bounds(n, i + 1, p - row.len());
        }
    }
}

pub proof fn lemma_pairs_distinct(n: int, i: int, p1: int, p2: int)
    requires
        0 <= i <= n,
        n <= usize::MAX,
        0 <= p1 < p2 < pairs_from(n, i).len(),
    ensures
        !(pairs_from(n, i)[p1].0 == pairs_from(n, i)[p2].0 && pairs_from(n, i)[p1].1 == pairs_from(
            n,
            i,
        )[p2].1),
    decreases n - i,
{
    if i < n {
        let row = row_pairs(n, i, i + 1);
        lemma_row_pairs_len(n, i, i + 1);
        if p2 < row.len() {
            lemma_row_pairs_bounds(n, i, i + 1, p1);
            lemma_row_pairs_bounds(n, i, i + 1, p2);
        } else if p1 >= row.len() {
            lemma_pairs_distinct(n, i + 1, p1 - row.len(), p2 - row.len());
        } else {
            lemma_row_pairs_bounds(n, i, i + 1, p1);
            lemma_pairs_bounds(n, i + 1, p2 - row.len());
        }
    }
}

/// Enumerates the ordered pairs of `0..n`.
pub fn pair_list(n: usize) -> (r: Vec<(usize, usize)>)
    ensures
        r@ == pairs_from(n as int, 0),
{
    let mut r: Vec<(usize, usize)> = Vec::new();
    if n == 0 {
        return r;
    }
    let mut i: usize = 0;
    while i < n
        invariant
            i <= n,
            pairs_from(n as int, 0) == r@ + pairs_from(n as int, i as int),
        decreases n - i,
    {
        let mut j: usize = i + 1;
        proof {
            assert(pairs_from(n as int, i as int) == row_pairs(n as int, i as int, i + 1)
                + pairs_from(n as int, i + 1));
        }
        while j < n
            invariant
                i < j <= n,
                i < n,
                pairs_from(n as int, 0) == r@ + row_pairs(n as int, i as int, j as int)
                    + pairs_from(n as int, i + 1),
            decreases n - j,
        {
            proof {
                assert(row_pairs(n as int, i as int, j as int) == seq![(i, j)] + row_pairs(
                    n as int,
                    i as int,
                    j + 1,
                ));
            }
            r.push((i, j));
            proof {
                assert(r@ + row_pairs(n as int, i as int, j + 1) =~= r@.drop_last() + (seq![
                    (i, j),
                ] + row_pairs(n as int, i as int, j + 1)));
                assert((r@.drop_last() + (seq![(i, j)] + row_pairs(n as int, i as int, j + 1)))
                    + pairs_from(n as int, i + 1) =~= (r@.drop_last() + row_pairs(
                    n as int,
                    i as int,
                    j as int,
                )) + pairs_from(n as int, i + 1));
            }
            j = j + 1;
        }
        proof {
            assert(row_pairs(n as int, i as int, n as int) =~= Seq::<(usize, usize)>::empty());
            assert(r@ + Seq::<(usize, usize)>::empty() + pairs_from(n as int, i + 1) =~= r@
                + pairs_from(n as int, i + 1));
        }
        i = i + 1;
    }
    proof {
        assert(pairs_from(n as int, n as int) =~= Seq::<(usize, usize)>::empty());
        assert(r@ + Seq::<(usize, usize)>::empty() =~= r@);
    }
    r
}

/// How one cache row relates two note ids: endpoints in canonical
/// order, the given score, the given timestamp.
pub open spec fn edge_matches(
    e: EdgeRow,
    x: Seq<char>,
    y: Seq<char>,
    sim: i64,
    now: Seq<char>,
) -> bool {
    &&& if lex_lt(x, y) {
        e.note_id_a@ == x && e.note_id_b@ == y
    } else {
        e.note_id_a@ == y && e.note_id_b@ == x
    }
    &&& e.similarity_micros == sim
    &&& e.updated_at@ == now
}

impl Store {
    /// Rebuilds the whole similarity cache: one row for every unordered
    /// pair of embedded notes, in canonical order, with the similarity
    /// the host computed for that pair (pairs enumerated row by row over
    /// the embedding table). Returns the number of rows written.
    pub fn rebuild_full_cache(&mut self, sims: &Vec<i64>, now: &str) -> (r: Result<
        u32,
        SunderError,
    >)
        requires
            old(self).wf(),
            sims@.len() == pairs_from(old(self).embeddings@.len() as int, 0).len(),
            sims@.len() <= 0xffff_ffff,
            forall|k: int| 0 <= k < sims@.len() ==> -1000000 <= #[trigger] sims@[k] <= 1000000,
        ensures
            final(self).wf(),
            r is Ok,
            r matches Ok(c) ==> c == sims@.len(),
            final(self).edges@.len() == sims@.len(),
            forall|p: int|
                0 <= p < sims@.len() ==> edge_matches(
                    #[trigger] final(self).edges@[p],
                    old(self).embeddings@[pairs_from(old(self).embeddings@.len() as int, 0)[p].0 as int].note_id@,
                    old(self).embeddings@[pairs_from(old(self).embeddings@.len() as int, 0)[p].1 as int].note_id@,
                    sims@[p],
                    now@,
                ),
            final(self).notes@ == old(self).notes@,
            final(self).fts@ == old(self).fts@,
            final(self).embeddings@ == old(self).embeddings@,
            final(self).dense@ == old(self).dense@,
            final(self).settings@ == old(self).settings@,
            final(self).applied_migrations@ == old(self).applied_migrations@,
    {
        let n: usize = self.embeddings.len();
        let ghost all_pairs = pairs_from(n as int, 0);
        let pairs: Vec<(usize, usize)> = pair_list(n);
        self.edges.clear();
        let mut p: usize = 0;
        while p < pairs.len()
            invariant
                old(self).wf(),
                p <= pairs@.len(),
                pairs@ == all_pairs,
                all_pairs == pairs_from(n as int, 0),
                n == old(self).embeddings@.len(),
                sims@.len() == all_pairs.len(),
                forall|k: int| 0 <= k < sims@.len() ==> -1000000 <= #[trigger] sims@[k] <= 1000000,
                self.edges@.len() == p,
                forall|q: int|
                    0 <= q < p ==> edge_matches(
                        #[trigger] self.edges@[q],
                        old(self).embeddings@[all_pairs[q].0 as int].note_id@,
                        old(self).embeddings@[all_pairs[q].1 as int].note_id@,
                        sims@[q],
                        now@,
                    ),
                self.notes@ == old(self).notes@,
                self.fts@ == old(self).fts@,
                self.embeddings@ == old(self).embeddings@,
                self.dense@ == old(self).dense@,
                self.settings@ == old(self).settings@,
                self.applied_migrations@ == old(self).applied_migrations@,
            decreases pairs@.len() - p,
        {
            let (i, j) = pairs[p];
            proof {
                lemma_pairs_bounds(n as int, 0, p as int);
            }
            let ida: &String = &self.embeddings[i].note_id;
            let idb: &String = &self.embeddings[j].note_id;
            proof {
                assert(ida@ != idb@);
            }
            let sim: i64 = sims[p];
            let edge: EdgeRow = if str_lt(ida.as_str(), idb.as_str()) {
                EdgeRow {
                    note_id_a: ida.clone(),
                    note_id_b: idb.clone(),
                    similarity_micros: sim,
                    updated_at: String::from_str(now),
                }
            } else {
                proof {
                    crate::chars::lemma_lex_total(ida@, idb@);
                }
                EdgeRow {
                    note_id_a: idb.clone(),
                    note_id_b: ida.clone(),
                    similarity_micros: sim,
                    updated_at: String::from_str(now),
                }
            };
            self.edges.push(edge);
            p = p + 1;
        }
        proof {
            assert(old(self).embeddings@.len() <= usize::MAX);
            lemma_full_cache_wf(*old(self), *self, sims@, now@);
        }
        proof {
            assert(sims@.len() <= 0xffff_ffff);
        }
        Ok(p as u32)
    }
}

/// The rebuilt cache satisfies the store invariant: canonical order,
/// existing endpoints, and no repeated pair.
proof fn lemma_full_cache_wf(pre: Store, post: Store, sims: Seq<i64>, now: Seq<char>)
    requires
        pre.wf(),
        post.notes@ == pre.notes@,
        post.fts@ == pre.fts@,
        post.embeddings@ == pre.embeddings@,
        post.dense@ == pre.dense@,
        post.settings@ == pre.settings@,
        post.applied_migrations@ == pre.applied_migrations@,
        pre.embeddings@.len() <= usize::MAX,
        sims.len() == pairs_from(pre.embeddings@.len() as int, 0).len(),
        forall|k: int| 0 <= k < sims.len() ==> -1000000 <= #[trigger] sims[k] <= 1000000,
        post.edges@.len() == sims.len(),
        forall|p: int|
            0 <= p < sims.len() ==> edge_matches(
                #[trigger] post.edges@[p],
                pre.embeddings@[pairs_from(pre.embeddings@.len() as int, 0)[p].0 as int].note_id@,
                pre.embeddings@[pairs_from(pre.embeddings@.len() as int, 0)[p].1 as int].note_id@,
                sims[p],
                now,
            ),
    ensures
        post.wf(),
{
    let n = pre.embeddings@.len() as int;
    let all_pairs = pairs_from(n, 0);
    assert forall|p: int| 0 <= p < post.edges@.len() implies lex_lt(
        (#[trigger] post.edges@[p]).note_id_a@,
        post.edges@[p].note_id_b@,
    ) && has_note_id(post.notes@, post.edges@[p].note_id_a@) && has_note_id(
        post.notes@,
        post.edges@[p].note_id_b@,
    ) && -1000000 <= post.edges@[p].similarity_micros <= 1000000 by {
        lemma_pairs_bounds(n, 0, p);
        assert((all_pairs[p].0 as int) < (all_pairs[p].1 as int) < n);
        let x = pre.embeddings@[all_pairs[p].0 as int].note_id@;
        let y = pre.embeddings@[all_pairs[p].1 as int].note_id@;
        assert(edge_matches(post.edges@[p], x, y, sims[p], now));
        assert(x != y);
        crate::chars::lemma_lex_total(x, y);
        assert(has_note_id(pre.notes@, x));
        assert(has_note_id(pre.notes@, y));
    }
    assert forall|p1: int, p2: int|
        0 <= p1 < p2 < post.edges@.len() implies !((#[trigger] post.edges@[p1]).note_id_a@
        == (#[trigger] post.edges@[p2]).note_id_a@ && post.edges@[p1].note_id_b@
        == post.edges@[p2].note_id_b@) by {
        lemma_pairs_bounds(n, 0, p1);
        lemma_pairs_bounds(n, 0, p2);
        lemma_pairs_distinct(n, 0, p1, p2);
        let i1 = all_pairs[p1].0 as int;
        let j1 = all_pairs[p1].1 as int;
        let i2 = all_pairs[p2].0 as int;
        let j2 = all_pairs[p2].1 as int;
        let x1 = pre.embeddings@[i1].note_id@;
        let y1 = pre.embeddings@[j1].note_id@;
        let x2 = pre.embeddings@[i2].note_id@;
        let y2 = pre.embeddings@[j2].note_id@;
        assert(edge_matches(post.edges@[p1], x1, y1, sims[p1], now));
        assert(edge_matches(post.edges@[p2], x2, y2, sims[p2], now));
        assert(0 <= i1 < j1 < n);
        assert(0 <= i2 < j2 < n);
        assert(x1 != y1);
        assert(x2 != y2);
        crate::chars::lemma_lex_total(x1, y1);
        crate::chars::lemma_lex_total(x2, y2);
        if post.edges@[p1].note_id_a@ == post.edges@[p2].note_id_a@ && post.edges@[p1].note_id_b@
            == post.edges@[p2].note_id_b@ {
            // the unordered id pairs coincide, so the index pairs do too
            assert((x1 == x2 && y1 == y2) || (x1 == y2 && y1 == x2));
            if x1 == x2 && y1 == y2 {
                lemma_emb_inj(pre.embeddings@, i1, i2);
                lemma_emb_inj(pre.embeddings@, j1, j2);
            } else {
                lemma_emb_inj(pre.embeddings@, i1, j2);
                lemma_emb_inj(pre.embeddings@, j1, i2);
            }
            assert(false);
        }
    }
}

/// Distinct embedding rows carry distinct ids, so equal ids force equal
/// indices.
proof fn lemma_emb_inj(embs: Seq<EmbeddingRow>, a: int, b: int)
    requires
        forall|x: int, y: int|
            0 <= x < y < embs.len() ==> (#[trigger] embs[x]).note_id@
                != (#[trigger] embs[y]).note_id@,
        0 <= a < embs.len(),
        0 <= b < embs.len(),
        embs[a].note_id@ == embs[b].note_id@,
    ensures
        a == b,
{
    if a < b {
        assert(embs[a].note_id@ != embs[b].note_id@);
    }
    if b < a {
        assert(embs[b].note_id@ != embs[a].note_id@);
    }
}

impl Store {
    /// Rebuilds the similarity cache rows that involve one note: every
    /// old row touching it goes, and one new canonical row per other
    /// embedded note comes in, with the similarities the host computed
    /// against the other embeddings in table order. A note without an
    /// embedding leaves the store unchanged.
    pub fn rebuild_cache_for_note(&mut self, id: &str, sims: &Vec<i64>, now: &str) -> (r: Result<
        (),
        SunderError,
    >)
        requires
            old(self).wf(),
            sims@.len() == emb_kept(old(self).embeddings@, id@).len(),
            forall|k: int| 0 <= k < sims@.len() ==> -1000000 <= #[trigger] sims@[k] <= 1000000,
        ensures
            final(self).wf(),
            r is Ok,
            !crate::store::has_embedding(old(self).embeddings@, id@) ==> *final(self) == *old(self),
            crate::store::has_embedding(old(self).embeddings@, id@) ==> ({
                let others = emb_kept(old(self).embeddings@, id@);
                &&& final(self).edges@.len() == edges_kept(old(self).edges@, id@).len()
                    + others.len()
                &&& forall|q: int|
                    0 <= q < edges_kept(old(self).edges@, id@).len() ==> #[trigger] final(self).edges@[q] == edges_kept(old(self).edges@, id@)[q]
                &&& forall|q: int|
                    0 <= q < others.len() ==> edge_matches(
                        #[trigger] final(self).edges@[edges_kept(old(self).edges@, id@).len() + q],
                        id@,
                        others[q].note_id@,
                        sims@[q],
                        now@,
                    )
                &&& final(self).notes@ == old(self).notes@
                &&& final(self).fts@ == old(self).fts@
                &&& final(self).embeddings@ == old(self).embeddings@
                &&& final(self).dense@ == old(self).dense@
                &&& final(self).settings@ == old(self).settings@
                &&& final(self).applied_migrations@ == old(self).applied_migrations@
            }),
    {
        if let None = self.find_embedding_index(id) {
            return Ok(());
        }
        proof {
            assert(crate::store::has_embedding(self.embeddings@, id@));
        }
        // drop the old rows touching this note
        let mut j: usize = 0;
        let ghost og = old(self).edges@;
        proof {
            assert(og.take(0) =~= Seq::<EdgeRow>::empty());
            assert(edges_kept(og.take(0), id@) + og.skip(0) =~= og);
        }
        let ghost mut gm: int = 0;
        while j < self.edges.len()
            invariant
                0 <= gm <= og.len(),
                og == old(self).edges@,
                old(self).wf(),
                self.edges@ == edges_kept(og.take(gm), id@) + og.skip(gm),
                j == edges_kept(og.take(gm), id@).len(),
                self.notes@ == old(self).notes@,
                self.fts@ == old(self).fts@,
                self.embeddings@ == old(self).embeddings@,
                self.dense@ == old(self).dense@,
                self.settings@ == old(self).settings@,
                self.applied_migrations@ == old(self).applied_migrations@,
            decreases og.len() - gm,
        {
            proof {
                lemma_edges_kept(og.take(gm), id@);
                assert(og.take(gm).len() == gm);
                if gm >= og.len() {
                    assert(og.skip(gm).len() == 0);
                    assert(false);
                }
                assert(self.edges@[j as int] == og.skip(gm)[0]);
                assert(og.skip(gm)[0] == og[gm]);
                assert(og.take(gm + 1).drop_last() =~= og.take(gm));
                assert(og.take(gm + 1).last() == og[gm]);
            }
            let hit: bool = str_eq(self.edges[j].note_id_a.as_str(), id) || str_eq(
                self.edges[j].note_id_b.as_str(),
                id,
            );
            if hit {
                let _ = self.edges.remove(j);
                proof {
                    assert(self.edges@ =~= edges_kept(og.take(gm + 1), id@) + og.skip(gm + 1));
                    gm = gm + 1;
                }
            } else {
                j = j + 1;
                proof {
                    assert(self.edges@ =~= edges_kept(og.take(gm + 1), id@) + og.skip(gm + 1));
                    gm = gm + 1;
                }
            }
        }
        proof {
            assert(gm == og.len()) by {
                if gm < og.len() {
                    lemma_edges_kept(og.take(gm), id@);
                    assert(self.edges@.len() > j);
                }
            }
            assert(og.take(og.len() as int) =~= og);
            assert(og.skip(og.len() as int) =~= Seq::<EdgeRow>::empty());
            assert(self.edges@ =~= edges_kept(og, id@));
        }

        // insert one canonical row per other embedded note
        let ghost kept_len = edges_kept(og, id@).len();
        let ghost others = emb_kept(old(self).embeddings@, id@);
        let mut k: usize = 0;
        let mut q: usize = 0;
        let ghost oe = old(self).embeddings@;
        proof {
            assert(oe.take(0) =~= Seq::<EmbeddingRow>::empty());
        }
        while k < self.embeddings.len()
            invariant
                old(self).wf(),
                k <= oe.len(),
                oe == old(self).embeddings@,
                og == old(self).edges@,
                others == emb_kept(oe, id@),
                sims@.len() == others.len(),
                forall|x: int| 0 <= x < sims@.len() ==> -1000000 <= #[trigger] sims@[x] <= 1000000,
                q == emb_kept(oe.take(k as int), id@).len(),
                kept_len == edges_kept(og, id@).len(),
                self.edges@.len() == kept_len + q,
                forall|x: int|
                    0 <= x < kept_len ==> #[trigger] self.edges@[x] == edges_kept(og, id@)[x],
                q <= others.len(),
                forall|x: int|
                    0 <= x < q ==> edge_matches(
                        #[trigger] self.edges@[kept_len + x],
                        id@,
                        others[x].note_id@,
                        sims@[x],
                        now@,
                    ),
                self.notes@ == old(self).notes@,
                self.fts@ == old(self).fts@,
                self.embeddings@ == old(self).embeddings@,
                self.dense@ == old(self).dense@,
                self.settings@ == old(self).settings@,
                self.applied_migrations@ == old(self).applied_migrations@,
            decreases oe.len() - k,
        {
            proof {
                assert(oe.take(k + 1).drop_last() =~= oe.take(k as int));
                assert(oe.take(k + 1).last() == oe[k as int]);
                lemma_emb_kept(oe.take(k as int), id@);
                lemma_emb_kept_prefix(oe, id@, k as int);
            }
            let other: &String = &self.embeddings[k].note_id;
            if !str_eq(other.as_str(), id) {
                proof {
                    assert(emb_kept(oe.take(k + 1), id@) == emb_kept(oe.take(k as int), id@).push(
                        oe[k as int],
                    ));
                    assert(others[q as int] == oe[k as int]);
                }
                let sim: i64 = sims[q];
                let edge: EdgeRow = if str_lt(id, other.as_str()) {
                    EdgeRow {
                        note_id_a: String::from_str(id),
                        note_id_b: other.clone(),
                        similarity_micros: sim,
                        updated_at: String::from_str(now),
                    }
                } else {
                    proof {
                        crate::chars::lemma_lex_total(id@, other@);
                    }
                    EdgeRow {
                        note_id_a: other.clone(),
                        note_id_b: String::from_str(id),
                        similarity_micros: sim,
                        updated_at: String::from_str(now),
                    }
                };
                self.edges.push(edge);
                q = q + 1;
            } else {
                proof {
                    assert(emb_kept(oe.take(k + 1), id@) == emb_kept(oe.take(k as int), id@));
                }
            }
            k = k + 1;
        }
        proof {
            assert(oe.take(oe.len() as int) =~= oe);
            lemma_rebuild_note_wf(*old(self), *self, id@, sims@, now@);
        }
        Ok(())
    }
}

/// The prefix of the survivors is the survivors of the prefix.
proof fn lemma_emb_kept_prefix(rows: Seq<EmbeddingRow>, id: Seq<char>, k: int)
    requires
        0 <= k < rows.len(),
    ensures
        rows[k].note_id@ != id ==> #[trigger] emb_kept(rows, id).len() > emb_kept(
            rows.take(k),
            id,
        ).len() && emb_kept(rows, id)[emb_kept(rows.take(k), id).len() as int] == rows[k],
        forall|x: int|
            0 <= x < emb_kept(rows.take(k), id).len() ==> #[trigger] emb_kept(rows.take(k), id)[x]
                == emb_kept(rows, id)[x],
        emb_kept(rows.take(k), id).len() <= emb_kept(rows, id).len(),
    decreases rows.len(),
{
    let dl = rows.drop_last();
    if k == rows.len() - 1 {
        assert(rows.take(k) =~= dl);
        if rows.last().note_id@ == id {
            assert(emb_kept(rows, id) == emb_kept(dl, id));
        } else {
            assert(emb_kept(rows, id) == emb_kept(dl, id).push(rows.last()));
        }
    } else {
        assert(dl[k] == rows[k]);
        assert(dl.take(k) =~= rows.take(k));
        lemma_emb_kept_prefix(dl, id, k);
        if rows.last().note_id@ == id {
            assert(emb_kept(rows, id) == emb_kept(dl, id));
        } else {
            assert(emb_kept(rows, id) == emb_kept(dl, id).push(rows.last()));
        }
        assert forall|x: int|
            0 <= x < emb_kept(rows.take(k), id).len() implies #[trigger] emb_kept(
            rows.take(k),
            id,
        )[x] == emb_kept(rows, id)[x] by {
            assert(emb_kept(rows.take(k), id)[x] == emb_kept(dl.take(k), id)[x]);
            assert(emb_kept(dl.take(k), id)[x] == emb_kept(dl, id)[x]);
            assert(x < emb_kept(dl, id).len());
            assert(emb_kept(dl, id)[x] == emb_kept(rows, id)[x]);
        }
        if rows[k].note_id@ != id {
            assert(emb_kept(dl, id)[emb_kept(dl.take(k), id).len() as int] == dl[k]);
            assert(emb_kept(rows, id)[emb_kept(rows.take(k), id).len() as int] == rows[k]);
        }
    }
}

/// The rebuilt per-note rows satisfy the store invariant.
proof fn lemma_rebuild_note_wf(pre: Store, post: Store, id: Seq<char>, sims: Seq<i64>, now: Seq<char>)
    requires
        pre.wf(),
        post.notes@ == pre.notes@,
        post.fts@ == pre.fts@,
        post.embeddings@ == pre.embeddings@,
        post.dense@ == pre.dense@,
        post.settings@ == pre.settings@,
        post.applied_migrations@ == pre.applied_migrations@,
        crate::store::has_embedding(pre.embeddings@, id),
        sims.len() == emb_kept(pre.embeddings@, id).len(),
        forall|k: int| 0 <= k < sims.len() ==> -1000000 <= #[trigger] sims[k] <= 1000000,
        post.edges@.len() == edges_kept(pre.edges@, id).len() + emb_kept(pre.embeddings@, id).len(),
        forall|x: int|
            0 <= x < edges_kept(pre.edges@, id).len() ==> #[trigger] post.edges@[x] == edges_kept(
                pre.edges@,
                id,
            )[x],
        forall|x: int|
            0 <= x < emb_kept(pre.embeddings@, id).len() ==> edge_matches(
                #[trigger] post.edges@[edges_kept(pre.edges@, id).len() + x],
                id,
                emb_kept(pre.embeddings@, id)[x].note_id@,
                sims[x],
                now,
            ),
    ensures
        post.wf(),
{
    let kept = edges_kept(pre.edges@, id);
    let others = emb_kept(pre.embeddings@, id);
    let kl = kept.len() as int;
    lemma_edges_kept(pre.edges@, id);
    lemma_emb_kept(pre.embeddings@, id);
    assert(has_note_id(pre.notes@, id)) by {
        let w = choose|w: int|
            0 <= w < pre.embeddings@.len() && pre.embeddings@[w].note_id@ == id;
        assert(has_note_id(pre.notes@, pre.embeddings@[w].note_id@));
    }
    assert forall|p: int| 0 <= p < post.edges@.len() implies lex_lt(
        (#[trigger] post.edges@[p]).note_id_a@,
        post.edges@[p].note_id_b@,
    ) && has_note_id(post.notes@, post.edges@[p].note_id_a@) && has_note_id(
        post.notes@,
        post.edges@[p].note_id_b@,
    ) && -1000000 <= post.edges@[p].similarity_micros <= 1000000 by {
        if p < kl {
            assert(post.edges@[p] == kept[p]);
            assert(pre.edges@.contains(kept[p]));
            let w = choose|w: int| 0 <= w < pre.edges@.len() && pre.edges@[w] == kept[p];
            assert(lex_lt(pre.edges@[w].note_id_a@, pre.edges@[w].note_id_b@));
            assert(has_note_id(pre.notes@, pre.edges@[w].note_id_a@));
            assert(has_note_id(pre.notes@, pre.edges@[w].note_id_b@));
            assert(-1000000 <= pre.edges@[w].similarity_micros <= 1000000);
        } else {
            let x = p - kl;
            assert(edge_matches(post.edges@[kl + x], id, others[x].note_id@, sims[x], now));
            let oid = others[x].note_id@;
            assert(pre.embeddings@.contains(others[x]));
            let w = choose|w: int|
                0 <= w < pre.embeddings@.len() && pre.embeddings@[w] == others[x];
            assert(has_note_id(pre.notes@, pre.embeddings@[w].note_id@));
            assert(has_note_id(pre.notes@, oid));
            assert(oid != id);
            crate::chars::lemma_lex_total(id, oid);
        }
    }
    assert forall|p1: int, p2: int|
        0 <= p1 < p2 < post.edges@.len() implies !((#[trigger] post.edges@[p1]).note_id_a@
        == (#[trigger] post.edges@[p2]).note_id_a@ && post.edges@[p1].note_id_b@
        == post.edges@[p2].note_id_b@) by {
        if p1 < kl && p2 < kl {
            assert(post.edges@[p1] == kept[p1]);
            assert(post.edges@[p2] == kept[p2]);
            lemma_kept_edges_pairwise(pre.edges@, id, p1, p2);
        } else if p1 < kl && p2 >= kl {
            // an old surviving row avoids `id`; a new row touches it
            let x = p2 - kl;
            assert(post.edges@[p1] == kept[p1]);
            assert(edge_matches(post.edges@[kl + x], id, others[x].note_id@, sims[x], now));
            let oid = others[x].note_id@;
            assert(kept[p1].note_id_a@ != id && kept[p1].note_id_b@ != id);
            assert(oid != id);
            crate::chars::lemma_lex_total(id, oid);
        } else {
            let x1 = p1 - kl;
            let x2 = p2 - kl;
            assert(edge_matches(post.edges@[kl + x1], id, others[x1].note_id@, sims[x1], now));
            assert(edge_matches(post.edges@[kl + x2], id, others[x2].note_id@, sims[x2], now));
            let o1 = others[x1].note_id@;
            let o2 = others[x2].note_id@;
            assert(o1 != o2) by {
                lemma_others_distinct(pre.embeddings@, id, x1, x2);
            }
            assert(o1 != id && o2 != id);
            crate::chars::lemma_lex_total(id, o1);
            crate::chars::lemma_lex_total(id, o2);
        }
    }
}

/// Surviving cache rows keep pairwise-distinct canonical pairs.
proof fn lemma_kept_edges_pairwise(rows: Seq<EdgeRow>, id: Seq<char>, p1: int, p2: int)
    requires
        forall|a: int, b: int|
            0 <= a < b < rows.len() ==> !((#[trigger] rows[a]).note_id_a@
                == (#[trigger] rows[b]).note_id_a@ && rows[a].note_id_b@ == rows[b].note_id_b@),
        0 <= p1 < p2 < edges_kept(rows, id).len(),
    ensures
        !(edges_kept(rows, id)[p1].note_id_a@ == edges_kept(rows, id)[p2].note_id_a@ && edges_kept(
            rows,
            id,
        )[p1].note_id_b@ == edges_kept(rows, id)[p2].note_id_b@),
    decreases rows.len(),
{
    if rows.len() > 0 {
        let dl = rows.drop_last();
        let kept = edges_kept(rows, id);
        assert forall|a: int, b: int|
            0 <= a < b < dl.len() implies !((#[trigger] dl[a]).note_id_a@
            == (#[trigger] dl[b]).note_id_a@ && dl[a].note_id_b@ == dl[b].note_id_b@) by {
            assert(dl[a] == rows[a]);
            assert(dl[b] == rows[b]);
        }
        if rows.last().note_id_a@ == id || rows.last().note_id_b@ == id {
            lemma_kept_edges_pairwise(dl, id, p1, p2);
        } else {
            if p2 < kept.len() - 1 {
                lemma_kept_edges_pairwise(dl, id, p1, p2);
            } else {
                lemma_edges_kept(dl, id);
                assert(kept[p1] == edges_kept(dl, id)[p1]);
                assert(dl.contains(kept[p1]));
                let w = choose|w: int| 0 <= w < dl.len() && dl[w] == kept[p1];
                assert(rows[w] == kept[p1]);
                assert(kept[p2] == rows.last());
            }
        }
    }
}

/// Two different surviving embedding rows carry different ids.
proof fn lemma_others_distinct(rows: Seq<EmbeddingRow>, id: Seq<char>, x1: int, x2: int)
    requires
        forall|a: int, b: int|
            0 <= a < b < rows.len() ==> (#[trigger] rows[a]).note_id@
                != (#[trigger] rows[b]).note_id@,
        0 <= x1 < x2 < emb_kept(rows, id).len(),
    ensures
        emb_kept(rows, id)[x1].note_id@ != emb_kept(rows, id)[x2].note_id@,
    decreases rows.len(),
{
    if rows.len() > 0 {
        let dl = rows.drop_last();
        let kept = emb_kept(rows, id);
        assert forall|a: int, b: int|
            0 <= a < b < dl.len() implies (#[trigger] dl[a]).note_id@
            != (#[trigger] dl[b]).note_id@ by {
            assert(dl[a] == rows[a]);
            assert(dl[b] == rows[b]);
        }
        if rows.last().note_id@ == id {
            lemma_others_distinct(dl, id, x1, x2);
        } else {
            if x2 < kept.len() - 1 {
                lemma_others_distinct(dl, id, x1, x2);
            } else {
                lemma_emb_kept(dl, id);
                assert(kept[x1] == emb_kept(dl, id)[x1]);
                assert(dl.contains(kept[x1]));
                let w = choose|w: int| 0 <= w < dl.len() && dl[w] == kept[x1];
                assert(rows[w] == kept[x1]);
                assert(kept[x2] == rows.last());
                assert(rows[w].note_id@ != rows[rows.len() - 1].note_id@);
            }
        }
    }
}


/// The cached edges at or above the threshold, in table order.
pub open spec fn edges_above(rows: Seq<EdgeRow>, t: i64) -> Seq<EdgeRow>
    decreases rows.len(),
{
    if rows.len() == 0 {
        Seq::empty()
    } else if rows.last().similarity_micros >= t {
        edges_above(rows.drop_last(), t).push(rows.last())
    } else {
        edges_above(rows.drop_last(), t)
    }
}

proof fn lemma_edges_above(rows: Seq<EdgeRow>, t: i64)
    ensures
        edges_above(rows, t).len() <= rows.len(),
        forall|k: int|
            0 <= k < edges_above(rows, t).len() ==> rows.contains(
                #[trigger] edges_above(rows, t)[k],
            ),
    decreases rows.len(),
{
    if rows.len() > 0 {
        let dl = rows.drop_last();
        lemma_edges_above(dl, t);
        let kept = edges_above(rows, t);
        assert forall|k: int| 0 <= k < kept.len() implies rows.contains(#[trigger] kept[k]) by {
            if rows.last().similarity_micros < t || k < kept.len() - 1 {
                assert(kept[k] == edges_above(dl, t)[k]);
                assert(dl.contains(kept[k]));
                let w = choose|w: int| 0 <= w < dl.len() && dl[w] == kept[k];
                assert(rows[w] == kept[k]);
            } else {
                assert(kept[k] == rows.last());
                assert(rows[rows.len() - 1] == kept[k]);
            }
        }
    }
}

/// The node-index pairs of the selected edges, for clustering.
pub open spec fn graph_pairs(notes: Seq<Note>, kept: Seq<EdgeRow>) -> Seq<(usize, usize)> {
    Seq::new(
        kept.len(),
        |k: int|
            (
                idx_of_note(notes, kept[k].note_id_a@) as usize,
                idx_of_note(notes, kept[k].note_id_b@) as usize,
            ),
    )
}

/// The cluster ids of a node list.
pub open spec fn clusters_of(nodes: Seq<GraphNode>) -> Seq<u32> {
    nodes.map_values(|g: GraphNode| g.cluster)
}

impl Store {
    /// Builds the graph view: every note as a node, every cached edge at
    /// or above the threshold, and a connected-component cluster id per
    /// node, numbered in first-encounter order. The optional centre id is
    /// accepted for a future focus view and does not alter the result.
    /// Selects the edges at or above the threshold and maps them to
    /// node-index pairs and output rows.
    #[verifier::rlimit(100)]
    fn select_graph_edges(&self, threshold_micros: i64) -> (r: (Vec<(usize, usize)>, Vec<
        GraphEdge,
    >))
        requires
            self.wf(),
        ensures
            ({
                let kept = edges_above(self.edges@, threshold_micros);
                &&& r.0@ == graph_pairs(self.notes@, kept)
                &&& r.1@.len() == kept.len()
                &&& forall|k: int|
                    0 <= k < kept.len() ==> (#[trigger] r.1@[k]).source@ == kept[k].note_id_a@
                        && r.1@[k].target@ == kept[k].note_id_b@ && r.1@[k].similarity_micros
                        == kept[k].similarity_micros
            }),
    {
        let ghost kept_spec = edges_above(self.edges@, threshold_micros);
        let mut kept_idx: Vec<usize> = Vec::new();
        let mut k: usize = 0;
        proof {
            assert(self.edges@.take(0) =~= Seq::<EdgeRow>::empty());
        }
        while k < self.edges.len()
            invariant
                self.wf(),
                k <= self.edges@.len(),
                forall|q: int| 0 <= q < kept_idx@.len() ==> (#[trigger] kept_idx@[q]) < k,
                kept_idx@.len() == edges_above(self.edges@.take(k as int), threshold_micros).len(),
                forall|q: int|
                    0 <= q < kept_idx@.len() ==> self.edges@[#[trigger] kept_idx@[q] as int]
                        == edges_above(self.edges@.take(k as int), threshold_micros)[q],
            decreases self.edges@.len() - k,
        {
            proof {
                assert(self.edges@.take(k + 1).drop_last() =~= self.edges@.take(k as int));
                assert(self.edges@.take(k + 1).last() == self.edges@[k as int]);
            }
            if self.edges[k].similarity_micros >= threshold_micros {
                kept_idx.push(k);
            }
            k = k + 1;
        }
        proof {
            assert(self.edges@.take(self.edges@.len() as int) =~= self.edges@);
        }
        let mut pairs: Vec<(usize, usize)> = Vec::new();
        let mut out_edges: Vec<GraphEdge> = Vec::new();
        let mut q: usize = 0;
        while q < kept_idx.len()
            invariant
                self.wf(),
                q <= kept_idx@.len(),
                kept_spec == edges_above(self.edges@, threshold_micros),
                kept_idx@.len() == kept_spec.len(),
                forall|x: int|
                    0 <= x < kept_idx@.len() ==> (#[trigger] kept_idx@[x]) < self.edges@.len(),
                forall|x: int|
                    0 <= x < kept_idx@.len() ==> self.edges@[#[trigger] kept_idx@[x] as int]
                        == kept_spec[x],
                pairs@.len() == q,
                forall|x: int|
                    0 <= x < q ==> #[trigger] pairs@[x] == graph_pairs(self.notes@, kept_spec)[x],
                out_edges@.len() == q,
                forall|x: int|
                    0 <= x < q ==> (#[trigger] out_edges@[x]).source@ == kept_spec[x].note_id_a@
                        && out_edges@[x].target@ == kept_spec[x].note_id_b@
                        && out_edges@[x].similarity_micros == kept_spec[x].similarity_micros,
            decreases kept_idx@.len() - q,
        {
            let ei: usize = kept_idx[q];
            let ia: usize = match self.find_note_index(self.edges[ei].note_id_a.as_str()) {
                Some(i) => i,
                None => {
                    proof {
                        assert(has_note_id(self.notes@, self.edges@[ei as int].note_id_a@));
                        assert(false);
                    }
                    0
                },
            };
            let ib: usize = match self.find_note_index(self.edges[ei].note_id_b.as_str()) {
                Some(i) => i,
                None => {
                    proof {
                        assert(has_note_id(self.notes@, self.edges@[ei as int].note_id_b@));
                        assert(false);
                    }
                    0
                },
            };
            proof {
                let a = kept_spec[q as int].note_id_a@;
                let b = kept_spec[q as int].note_id_b@;
                let wa = idx_of_note(self.notes@, a);
                assert(self.notes@[wa].id@ == a) by {
                    assert(has_note_id(self.notes@, self.edges@[ei as int].note_id_a@));
                }
                if wa != ia as int {
                    assert(self.notes@[ia as int].id@ == a);
                    assert(false);
                }
                let wb = idx_of_note(self.notes@, b);
                assert(self.notes@[wb].id@ == b) by {
                    assert(has_note_id(self.notes@, self.edges@[ei as int].note_id_b@));
                }
                if wb != ib as int {
                    assert(self.notes@[ib as int].id@ == b);
                    assert(false);
                }
            }
            pairs.push((ia, ib));
            out_edges.push(
                GraphEdge {
                    source: self.edges[ei].note_id_a.clone(),
                    target: self.edges[ei].note_id_b.clone(),
                    similarity_micros: self.edges[ei].similarity_micros,
                },
            );
            q = q + 1;
        }
        proof {
            assert(pairs@ =~= graph_pairs(self.notes@, kept_spec));
        }
        (pairs, out_edges)
    }

    /// Builds the graph view: every note as a node, every cached edge at
    /// or above the threshold, and a connected-component cluster id per
    /// node, numbered in first-encounter order. The optional centre id is
    /// accepted for a future focus view and does not alter the result.
    #[verifier::rlimit(100)]
    pub fn get_graph(&self, _center: Option<&str>, threshold_micros: i64) -> (r: GraphData)
        requires
            self.wf(),
        ensures
            ({
                let kept = edges_above(self.edges@, threshold_micros);
                let pairs = graph_pairs(self.notes@, kept);
                let n = self.notes@.len() as int;
                let labels = labels_after(n as nat, pairs, pairs.len() as int);
                &&& r.edges@.len() == kept.len()
                &&& forall|k: int|
                    0 <= k < kept.len() ==> (#[trigger] r.edges@[k]).source@ == kept[k].note_id_a@
                        && r.edges@[k].target@ == kept[k].note_id_b@
                        && r.edges@[k].similarity_micros == kept[k].similarity_micros
                &&& r.nodes@.len() == n
                &&& forall|i: int|
                    0 <= i < n ==> (#[trigger] r.nodes@[i]).id@ == self.notes@[i].id@
                        && r.nodes@[i].title@ == self.notes@[i].title@
                &&& forall|x: int, y: int|
                    0 <= x < n && 0 <= y < n ==> ((r.nodes@[x].cluster == r.nodes@[y].cluster)
                        <==> (labels[x] == labels[y]))
                &&& forall|x: int|
                    0 <= x < n && #[trigger] first_occurrence(labels, x) ==> r.nodes@[x].cluster
                        == max_plus_one(clusters_of(r.nodes@).take(x))
            }),
    {
        let ghost kept_spec = edges_above(self.edges@, threshold_micros);
        let n: usize = self.notes.len();
        let (pairs, out_edges) = self.select_graph_edges(threshold_micros);
        let clusters: Vec<u32> = union_find_clusters(n, &pairs);
        let mut nodes: Vec<GraphNode> = Vec::new();
        let mut i: usize = 0;
        while i < n
            invariant
                self.wf(),
                i <= n,
                n == self.notes@.len(),
                clusters@.len() == n,
                nodes@.len() == i,
                forall|x: int|
                    0 <= x < i ==> (#[trigger] nodes@[x]).id@ == self.notes@[x].id@
                        && nodes@[x].title@ == self.notes@[x].title@ && nodes@[x].cluster
                        == clusters@[x],
            decreases n - i,
        {
            nodes.push(
                GraphNode {
                    id: self.notes[i].id.clone(),
                    title: self.notes[i].title.clone(),
                    cluster: clusters[i],
                },
            );
            i = i + 1;
        }
        proof {
            assert(graph_pairs(self.notes@, kept_spec) == pairs@);
            assert(self.notes@.len() as int as nat == n as nat);
            lemma_graph_transfer(nodes@, clusters@, pairs@, n as int);
        }
        GraphData { nodes, edges: out_edges }
    }
}


/// Carries the clustering facts from the cluster vector to the node
/// list that copies it.
#[verifier::spinoff_prover]
proof fn lemma_graph_transfer(nodes: Seq<GraphNode>, clusters: Seq<u32>, pairs: Seq<(usize, usize)>, n: int)
    requires
        0 <= n,
        nodes.len() == n,
        clusters.len() == n,
        forall|x: int| 0 <= x < n ==> (#[trigger] nodes[x]).cluster == clusters[x],
        forall|x: int, y: int|
            0 <= x < n && 0 <= y < n ==> ((clusters[x] == clusters[y]) <==> (labels_after(
                n as nat,
                pairs,
                pairs.len() as int,
            )[x] == labels_after(n as nat, pairs, pairs.len() as int)[y])),
        forall|x: int|
            0 <= x < n && #[trigger] first_occurrence(
                labels_after(n as nat, pairs, pairs.len() as int),
                x,
            ) ==> clusters[x] == max_plus_one(clusters.take(x)),
    ensures
        forall|x: int, y: int|
            0 <= x < n && 0 <= y < n ==> (((#[trigger] nodes[x]).cluster
                == (#[trigger] nodes[y]).cluster) <==> (labels_after(
                n as nat,
                pairs,
                pairs.len() as int,
            )[x] == labels_after(n as nat, pairs, pairs.len() as int)[y])),
        forall|x: int|
            0 <= x < n && #[trigger] first_occurrence(
                labels_after(n as nat, pairs, pairs.len() as int),
                x,
            ) ==> nodes[x].cluster == max_plus_one(clusters_of(nodes).take(x)),
{
    assert(clusters_of(nodes) =~= clusters);
    assert forall|x: int|
        0 <= x < n && #[trigger] first_occurrence(
            labels_after(n as nat, pairs, pairs.len() as int),
            x,
        ) implies nodes[x].cluster == max_plus_one(clusters_of(nodes).take(x)) by {
        assert(clusters_of(nodes).take(x) =~= clusters.take(x));
    }
}

} // verus!
