//! Deleting a note and cascading the deletion into the embedding tables
//! and the similarity cache, so that no row of any coupled table keeps
//! referring to a note that is gone.

use vstd::prelude::*;
use crate::chars::str_eq;
use crate::errors::SunderError;
use crate::store::{has_embedding, has_note_id, idx_of_note, DenseRow, EdgeRow, EmbeddingRow, Note, Store};

verus! {

/// The embedding rows that survive the deletion of note `id`, in order.
pub open spec fn emb_kept(rows: Seq<EmbeddingRow>, id: Seq<char>) -> Seq<EmbeddingRow>
    decreases rows.len(),
{
    if rows.len() == 0 {
        Seq::empty()
    } else if rows.last().note_id@ == id {
        emb_kept(rows.drop_last(), id)
    } else {
        emb_kept(rows.drop_last(), id).push(rows.last())
    }
}

/// The dense rows that survive the deletion of note `id`, in order.
pub open spec fn dense_kept(rows: Seq<DenseRow>, id: Seq<char>) -> Seq<DenseRow>
    decreases rows.len(),
{
    if rows.len() == 0 {
        Seq::empty()
    } else if rows.last().note_id@ == id {
        dense_kept(rows.drop_last(), id)
    } else {
        dense_kept(rows.drop_last(), id).push(rows.last())
    }
}

/// The similarity edges that survive the deletion of note `id`, in order.
pub open spec fn edges_kept(rows: Seq<EdgeRow>, id: Seq<char>) -> Seq<EdgeRow>
    decreases rows.len(),
{
    if rows.len() == 0 {
        Seq::empty()
    } else if rows.last().note_id_a@ == id || rows.last().note_id_b@ == id {
        edges_kept(rows.drop_last(), id)
    } else {
        edges_kept(rows.drop_last(), id).push(rows.last())
    }
}

pub proof fn lemma_emb_kept(rows: Seq<EmbeddingRow>, id: Seq<char>)
    ensures
        emb_kept(rows, id).len() <= rows.len(),
        forall|k: int|
            0 <= k < emb_kept(rows, id).len() ==> (#[trigger] emb_kept(rows, id)[k]).note_id@
                != id,
        forall|k: int|
            0 <= k < emb_kept(rows, id).len() ==> rows.contains(#[trigger] emb_kept(rows, id)[k]),
        forall|q: int|
            0 <= q < rows.len() && (#[trigger] rows[q]).note_id@ != id ==> emb_kept(
                rows,
                id,
            ).contains(rows[q]),
    decreases rows.len(),
{
    if rows.len() > 0 {
        let dl = rows.drop_last();
        lemma_emb_kept(dl, id);
        let kept = emb_kept(rows, id);
        assert forall|k: int| 0 <= k < kept.len() implies rows.contains(#[trigger] kept[k]) by {
            if rows.last().note_id@ == id || k < kept.len() - 1 {
                assert(kept[k] == emb_kept(dl, id)[k]);
                assert(dl.contains(kept[k]));
                let w = choose|w: int| 0 <= w < dl.len() && dl[w] == kept[k];
                assert(rows[w] == kept[k]);
            } else {
                assert(kept[k] == rows.last());
                assert(rows[rows.len() - 1] == kept[k]);
            }
        }
        assert forall|q: int|
            0 <= q < rows.len() && (#[trigger] rows[q]).note_id@ != id implies kept.contains(
            rows[q],
        ) by {
            if q < rows.len() - 1 {
                assert(dl[q] == rows[q]);
                assert(emb_kept(dl, id).contains(rows[q]));
                let w = choose|w: int|
                    0 <= w < emb_kept(dl, id).len() && emb_kept(dl, id)[w] == rows[q];
                assert(kept[w] == rows[q]);
            } else {
                assert(rows.last() == rows[q]);
                assert(kept.last() == rows[q]);
                assert(kept[kept.len() - 1] == rows[q]);
            }
        }
    }
}

pub proof fn lemma_dense_kept(rows: Seq<DenseRow>, id: Seq<char>)
    ensures
        dense_kept(rows, id).len() <= rows.len(),
        forall|k: int|
            0 <= k < dense_kept(rows, id).len() ==> (#[trigger] dense_kept(rows, id)[k]).note_id@
                != id,
    decreases rows.len(),
{
    if rows.len() > 0 {
        lemma_dense_kept(rows.drop_last(), id);
    }
}

pub proof fn lemma_edges_kept(rows: Seq<EdgeRow>, id: Seq<char>)
    ensures
        edges_kept(rows, id).len() <= rows.len(),
        forall|k: int|
            0 <= k < edges_kept(rows, id).len() ==> (#[trigger] edges_kept(rows, id)[k]).note_id_a@
                != id && edges_kept(rows, id)[k].note_id_b@ != id,
        forall|k: int|
            0 <= k < edges_kept(rows, id).len() ==> rows.contains(
                #[trigger] edges_kept(rows, id)[k],
            ),
        forall|q: int|
            0 <= q < rows.len() && (#[trigger] rows[q]).note_id_a@ != id && rows[q].note_id_b@ != id
                ==> edges_kept(rows, id).contains(rows[q]),
    decreases rows.len(),
{
    if rows.len() > 0 {
        let dl = rows.drop_last();
        lemma_edges_kept(dl, id);
        let kept = edges_kept(rows, id);
        assert forall|k: int| 0 <= k < kept.len() implies rows.contains(#[trigger] kept[k]) by {
            if (rows.last().note_id_a@ == id || rows.last().note_id_b@ == id) || k < kept.len()
                - 1 {
                assert(kept[k] == edges_kept(dl, id)[k]);
                assert(dl.contains(kept[k]));
                let w = choose|w: int| 0 <= w < dl.len() && dl[w] == kept[k];
                assert(rows[w] == kept[k]);
            } else {
                assert(kept[k] == rows.last());
                assert(rows[rows.len() - 1] == kept[k]);
            }
        }
        assert forall|q: int|
            0 <= q < rows.len() && (#[trigger] rows[q]).note_id_a@ != id && rows[q].note_id_b@
                != id implies kept.contains(rows[q]) by {
            if q < rows.len() - 1 {
                assert(dl[q] == rows[q]);
                assert(edges_kept(dl, id).contains(rows[q]));
                let w = choose|w: int|
                    0 <= w < edges_kept(dl, id).len() && edges_kept(dl, id)[w] == rows[q];
                assert(kept[w] == rows[q]);
            } else {
                assert(rows.last() == rows[q]);
                assert(kept.last() == rows[q]);
                assert(kept[kept.len() - 1] == rows[q]);
            }
        }
    }
}

impl Store {
    /// Deletes a note: removes its row and shadow row, and cascades into
    /// the embedding tables and the similarity cache. Returns the removed
    /// note, so a host that keeps note files on disk can decide what to
    /// do with the file; the store itself never touches files.
    pub fn delete_note(&mut self, id: &str) -> (r: Result<Note, SunderError>)
        requires
            old(self).wf(),
        ensures
            final(self).wf(),
            r is Ok <==> has_note_id(old(self).notes@, id@),
            r matches Err(e) ==> *final(self) == *old(self) && e is NotFound,
            r matches Ok(n) ==> ({
                let i = idx_of_note(old(self).notes@, id@);
                &&& 0 <= i < old(self).notes@.len()
                &&& n == old(self).notes@[i]
                &&& n.id@ == id@
                &&& final(self).notes@ == old(self).notes@.remove(i)
                &&& final(self).fts@ == old(self).fts@.remove(i)
                &&& final(self).embeddings@ == emb_kept(old(self).embeddings@, id@)
                &&& final(self).dense@ == dense_kept(old(self).dense@, id@)
                &&& final(self).edges@ == edges_kept(old(self).edges@, id@)
                &&& !has_embedding(final(self).embeddings@, id@)
                &&& final(self).settings@ == old(self).settings@
                &&& final(self).applied_migrations@ == old(self).applied_migrations@
            }),
    {
        let i: usize = match self.find_note_index(id) {
            Some(i) => i,
            None => {
                return Err(SunderError::NotFound(String::from_str("Note not found")));
            },
        };
        proof {
            let w = idx_of_note(self.notes@, id@);
            assert(self.notes@[i as int].id@ == id@);
            assert(self.notes@[w].id@ == id@);
            if w != i as int {
                assert(false);
            }
        }
        let removed: Note = self.notes.remove(i);
        let _ = self.fts.remove(i);

        // cascade: both embedding tables in one pass, so they keep
        // mirroring each other
        let mut k: usize = 0;
        let ghost oe = old(self).embeddings@;
        let ghost od = old(self).dense@;
        proof {
            assert(oe.take(0) =~= Seq::<EmbeddingRow>::empty());
            assert(od.take(0) =~= Seq::<DenseRow>::empty());
            assert(emb_kept(oe.take(0), id@) + oe.skip(0) =~= oe);
            assert(dense_kept(od.take(0), id@) + od.skip(0) =~= od);
        }
        let ghost mut m: int = 0;
        while k < self.embeddings.len()
            invariant
                0 <= m <= oe.len(),
                od.len() == oe.len(),
                oe == old(self).embeddings@,
                od == old(self).dense@,
                old(self).wf(),
                i < old(self).notes@.len(),
                old(self).notes@[i as int].id@ == id@,
                self.notes@ == old(self).notes@.remove(i as int),
                self.fts@ == old(self).fts@.remove(i as int),
                self.edges@ == old(self).edges@,
                self.settings@ == old(self).settings@,
                self.applied_migrations@ == old(self).applied_migrations@,
                self.embeddings@ == emb_kept(oe.take(m), id@) + oe.skip(m),
                self.dense@ == dense_kept(od.take(m), id@) + od.skip(m),
                dense_kept(od.take(m), id@).len() == emb_kept(oe.take(m), id@).len(),
                k == emb_kept(oe.take(m), id@).len(),
                forall|q: int| 0 <= q < oe.len() ==> #[trigger] od[q].note_id@ == oe[q].note_id@,
            decreases oe.len() - m,
        {
            proof {
                lemma_emb_kept(oe.take(m), id@);
                assert(oe.take(m).len() == m);
                if m >= oe.len() {
                    assert(oe.skip(m).len() == 0);
                    assert(self.embeddings@.len() == k);
                    assert(false);
                }
                assert(self.embeddings@[k as int] == oe.skip(m)[0]);
                assert(oe.skip(m)[0] == oe[m]);
                assert(self.dense@[k as int] == od.skip(m)[0]);
                assert(od.skip(m)[0] == od[m]);
                assert(oe.take(m + 1).drop_last() =~= oe.take(m));
                assert(oe.take(m + 1).last() == oe[m]);
                assert(od.take(m + 1).drop_last() =~= od.take(m));
                assert(od.take(m + 1).last() == od[m]);
            }
            let hit: bool = str_eq(self.embeddings[k].note_id.as_str(), id);
            if hit {
                let _ = self.embeddings.remove(k);
                let _ = self.dense.remove(k);
                proof {
                    assert(self.embeddings@ =~= emb_kept(oe.take(m + 1), id@) + oe.skip(m + 1));
                    assert(self.dense@ =~= dense_kept(od.take(m + 1), id@) + od.skip(m + 1));
                    m = m + 1;
                }
            } else {
                k = k + 1;
                proof {
                    assert(self.embeddings@ =~= emb_kept(oe.take(m + 1), id@) + oe.skip(m + 1));
                    assert(self.dense@ =~= dense_kept(od.take(m + 1), id@) + od.skip(m + 1));
                    m = m + 1;
                }
            }
        }
        proof {
            assert(m == oe.len()) by {
                if m < oe.len() {
                    lemma_emb_kept(oe.take(m), id@);
                    assert(self.embeddings@.len() > k);
                }
            }
            assert(oe.take(oe.len() as int) =~= oe);
            assert(od.take(od.len() as int) =~= od);
            assert(oe.skip(oe.len() as int) =~= Seq::<EmbeddingRow>::empty());
            assert(od.skip(od.len() as int) =~= Seq::<DenseRow>::empty());
            assert(self.embeddings@ =~= emb_kept(oe, id@));
            assert(self.dense@ =~= dense_kept(od, id@));
        }

        // cascade: the similarity cache
        let mut j: usize = 0;
        let ghost og = old(self).edges@;
        proof {
            assert(og.take(0) =~= Seq::<EdgeRow>::empty());
            assert(edges_kept(og.take(0), id@) + og.skip(0) =~= og);
        }
        let ghost mut gm: int = 0;
        while j < self.edges.len()
            invariant
                0 <= gm <= og.len(),
                og == old(self).edges@,
                oe == old(self).embeddings@,
                od == old(self).dense@,
                old(self).wf(),
                i < old(self).notes@.len(),
                old(self).notes@[i as int].id@ == id@,
                self.edges@ == edges_kept(og.take(gm), id@) + og.skip(gm),
                j == edges_kept(og.take(gm), id@).len(),
                self.embeddings@ == emb_kept(oe, id@),
                self.dense@ == dense_kept(od, id@),
                self.notes@ == old(self).notes@.remove(i as int),
                self.fts@ == old(self).fts@.remove(i as int),
                self.settings@ == old(self).settings@,
                self.applied_migrations@ == old(self).applied_migrations@,
            decreases og.len() - gm,
        {
            proof {
                lemma_edges_kept(og.take(gm), id@);
                assert(og.take(gm).len() == gm);
                if gm >= og.len() {
                    assert(og.skip(gm).len() == 0);
                    assert(false);
                }
                assert(self.edges@[j as int] == og.skip(gm)[0]);
                assert(og.skip(gm)[0] == og[gm]);
                assert(og.take(gm + 1).drop_last() =~= og.take(gm));
                assert(og.take(gm + 1).last() == og[gm]);
            }
            let hit: bool = str_eq(self.edges[j].note_id_a.as_str(), id) || str_eq(
                self.edges[j].note_id_b.as_str(),
                id,
            );
            if hit {
                let _ = self.edges.remove(j);
                proof {
                    assert(self.edges@ =~= edges_kept(og.take(gm + 1), id@) + og.skip(gm + 1));
                    gm = gm + 1;
                }
            } else {
                j = j + 1;
                proof {
                    assert(self.edges@ =~= edges_kept(og.take(gm + 1), id@) + og.skip(gm + 1));
                    gm = gm + 1;
                }
            }
        }
        proof {
            assert(gm == og.len()) by {
                if gm < og.len() {
                    lemma_edges_kept(og.take(gm), id@);
                    assert(self.edges@.len() > j);
                }
            }
            assert(og.take(og.len() as int) =~= og);
            assert(og.skip(og.len() as int) =~= Seq::<EdgeRow>::empty());
            assert(self.edges@ =~= edges_kept(og, id@));
        }

        proof {
            let oldn = old(self).notes@;
            let i = i as int;
            lemma_emb_kept(oe, id@);
            lemma_dense_kept(od, id@);
            lemma_edges_kept(og, id@);
            // uniqueness and coupling survive the removal
            assert forall|a: int, b: int| 0 <= a < b < self.notes@.len() implies #[trigger] self
                .notes@[a].id@ != #[trigger] self.notes@[b].id@ by {
                let oa = if a < i {
                    a
                } else {
                    a + 1
                };
                let ob = if b < i {
                    b
                } else {
                    b + 1
                };
                assert(self.notes@[a] == oldn[oa]);
                assert(self.notes@[b] == oldn[ob]);
            }
            assert forall|a: int, b: int|
                0 <= a < b < self.notes@.len() && #[trigger] crate::store::opt_view(
                    self.notes@[a].file_path,
                ) is Some implies crate::store::opt_view(self.notes@[a].file_path)
                != #[trigger] crate::store::opt_view(self.notes@[b].file_path) by {
                let oa = if a < i {
                    a
                } else {
                    a + 1
                };
                let ob = if b < i {
                    b
                } else {
                    b + 1
                };
                assert(self.notes@[a] == oldn[oa]);
                assert(self.notes@[b] == oldn[ob]);
            }
            assert forall|a: int| 0 <= a < self.notes@.len() implies #[trigger] self
                .notes@[a].word_count == crate::words::word_count_spec(self.notes@[a].content@) by {
                let oa = if a < i {
                    a
                } else {
                    a + 1
                };
                assert(self.notes@[a] == oldn[oa]);
            }
            assert forall|a: int| 0 <= a < self.notes@.len() implies #[trigger] self.fts@[a].title@
                == self.notes@[a].title@ && self.fts@[a].content@ == self.notes@[a].content@ by {
                let oa = if a < i {
                    a
                } else {
                    a + 1
                };
                assert(self.notes@[a] == oldn[oa]);
                assert(self.fts@[a] == old(self).fts@[oa]);
            }
            // kept rows are pairwise distinct and refer to surviving notes
            assert forall|q1: int, q2: int|
                0 <= q1 < q2 < self.embeddings@.len() implies (#[trigger] self
                .embeddings@[q1]).note_id@ != (#[trigger] self.embeddings@[q2]).note_id@ by {
                lemma_kept_emb_distinct(oe, id@, q1, q2);
            }
            assert forall|q: int| 0 <= q < self.embeddings@.len() implies has_note_id(
                self.notes@,
                #[trigger] self.embeddings@[q].note_id@,
            ) by {
                let nid = self.embeddings@[q].note_id@;
                assert(oe.contains(self.embeddings@[q]));
                let w = choose|w: int| 0 <= w < oe.len() && oe[w] == self.embeddings@[q];
                assert(has_note_id(oldn, nid));
                let nw = choose|nw: int| 0 <= nw < oldn.len() && oldn[nw].id@ == nid;
                assert(nid != id@);
                assert(nw != i);
                if nw < i {
                    assert(self.notes@[nw] == oldn[nw]);
                } else {
                    assert(self.notes@[nw - 1] == oldn[nw]);
                }
            }
            assert forall|q: int|
                0 <= q < self.embeddings@.len() implies (#[trigger] self
                .embeddings@[q].vector@).len() == crate::codec::EMBEDDING_BLOB_LEN as int by {
                let w = choose|w: int| 0 <= w < oe.len() && oe[w] == self.embeddings@[q];
            }
            lemma_kept_mirror(oe, od, id@);
            assert forall|q: int| 0 <= q < self.edges@.len() implies has_note_id(
                self.notes@,
                #[trigger] self.edges@[q].note_id_a@,
            ) && has_note_id(self.notes@, self.edges@[q].note_id_b@) && crate::chars::lex_lt(
                self.edges@[q].note_id_a@,
                self.edges@[q].note_id_b@,
            ) && -1000000 <= self.edges@[q].similarity_micros <= 1000000 by {
                assert(og.contains(self.edges@[q]));
                let w = choose|w: int| 0 <= w < og.len() && og[w] == self.edges@[q];
                let na = self.edges@[q].note_id_a@;
                let nb = self.edges@[q].note_id_b@;
                assert(has_note_id(oldn, na));
                assert(has_note_id(oldn, nb));
                let nwa = choose|nw: int| 0 <= nw < oldn.len() && oldn[nw].id@ == na;
                assert(na != id@);
                assert(nwa != i);
                if nwa < i {
                    assert(self.notes@[nwa] == oldn[nwa]);
                } else {
                    assert(self.notes@[nwa - 1] == oldn[nwa]);
                }
                let nwb = choose|nw: int| 0 <= nw < oldn.len() && oldn[nw].id@ == nb;
                assert(nb != id@);
                assert(nwb != i);
                if nwb < i {
                    assert(self.notes@[nwb] == oldn[nwb]);
                } else {
                    assert(self.notes@[nwb - 1] == oldn[nwb]);
                }
            }
            assert forall|q1: int, q2: int|
                0 <= q1 < q2 < self.edges@.len() implies !((#[trigger] self.edges@[q1]).note_id_a@
                == (#[trigger] self.edges@[q2]).note_id_a@ && self.edges@[q1].note_id_b@ == self
                .edges@[q2].note_id_b@) by {
                lemma_kept_edges_distinct(og, id@, q1, q2);
            }
            if has_embedding(self.embeddings@, id@) {
                let w = choose|w: int|
                    0 <= w < self.embeddings@.len() && self.embeddings@[w].note_id@ == id@;
                assert(false);
            }
        }
        Ok(removed)
    }
}

/// Two surviving embedding rows keep distinct note ids.
proof fn lemma_kept_emb_distinct(rows: Seq<EmbeddingRow>, id: Seq<char>, q1: int, q2: int)
    requires
        forall|a: int, b: int|
            0 <= a < b < rows.len() ==> #[trigger] rows[a].note_id@ != #[trigger] rows[b].note_id@,
        0 <= q1 < q2 < emb_kept(rows, id).len(),
    ensures
        emb_kept(rows, id)[q1].note_id@ != emb_kept(rows, id)[q2].note_id@,
    decreases rows.len(),
{
    if rows.len() > 0 {
        let dl = rows.drop_last();
        let kept = emb_kept(rows, id);
        assert forall|a: int, b: int|
            0 <= a < b < dl.len() implies #[trigger] dl[a].note_id@
            != #[trigger] dl[b].note_id@ by {
            assert(dl[a] == rows[a]);
            assert(dl[b] == rows[b]);
        }
        if rows.last().note_id@ == id {
            lemma_kept_emb_distinct(dl, id, q1, q2);
        } else {
            if q2 < kept.len() - 1 {
                lemma_kept_emb_distinct(dl, id, q1, q2);
            } else {
                lemma_emb_kept(dl, id);
                assert(kept[q1] == emb_kept(dl, id)[q1]);
                assert(dl.contains(kept[q1]));
                let w = choose|w: int| 0 <= w < dl.len() && dl[w] == kept[q1];
                assert(rows[w] == kept[q1]);
                assert(kept[q2] == rows.last());
                assert(rows[w].note_id@ != rows[rows.len() - 1].note_id@);
            }
        }
    }
}

/// Two surviving edges keep distinct canonical pairs.
proof fn lemma_kept_edges_distinct(rows: Seq<EdgeRow>, id: Seq<char>, q1: int, q2: int)
    requires
        forall|a: int, b: int|
            0 <= a < b < rows.len() ==> !(#[trigger] rows[a].note_id_a@
                == #[trigger] rows[b].note_id_a@ && rows[a].note_id_b@ == rows[b].note_id_b@),
        0 <= q1 < q2 < edges_kept(rows, id).len(),
    ensures
        !(edges_kept(rows, id)[q1].note_id_a@ == edges_kept(rows, id)[q2].note_id_a@ && edges_kept(
            rows,
            id,
        )[q1].note_id_b@ == edges_kept(rows, id)[q2].note_id_b@),
    decreases rows.len(),
{
    if rows.len() > 0 {
        let dl = rows.drop_last();
        let kept = edges_kept(rows, id);
        assert forall|a: int, b: int|
            0 <= a < b < dl.len() implies !(#[trigger] dl[a].note_id_a@
            == #[trigger] dl[b].note_id_a@ && dl[a].note_id_b@ == dl[b].note_id_b@) by {
            assert(dl[a] == rows[a]);
            assert(dl[b] == rows[b]);
        }
        if rows.last().note_id_a@ == id || rows.last().note_id_b@ == id {
            lemma_kept_edges_distinct(dl, id, q1, q2);
        } else {
            if q2 < kept.len() - 1 {
                lemma_kept_edges_distinct(dl, id, q1, q2);
            } else {
                lemma_edges_kept(dl, id);
                assert(kept[q1] == edges_kept(dl, id)[q1]);
                assert(dl.contains(kept[q1]));
                let w = choose|w: int| 0 <= w < dl.len() && dl[w] == kept[q1];
                assert(rows[w] == kept[q1]);
                assert(kept[q2] == rows.last());
                assert(!(rows[w].note_id_a@ == rows[rows.len() - 1].note_id_a@ && rows[w].note_id_b@
                    == rows[rows.len() - 1].note_id_b@));
            }
        }
    }
}

/// Filtering two mirrored tables by the same id keeps them mirrored.
proof fn lemma_kept_mirror(oe: Seq<EmbeddingRow>, od: Seq<DenseRow>, id: Seq<char>)
    requires
        od.len() == oe.len(),
        forall|q: int|
            0 <= q < oe.len() ==> #[trigger] od[q].note_id@ == oe[q].note_id@ && od[q].vector@
                == oe[q].vector@,
    ensures
        dense_kept(od, id).len() == emb_kept(oe, id).len(),
        forall|q: int|
            0 <= q < emb_kept(oe, id).len() ==> #[trigger] dense_kept(od, id)[q].note_id@
                == emb_kept(oe, id)[q].note_id@ && dense_kept(od, id)[q].vector@ == emb_kept(
                oe,
                id,
            )[q].vector@,
    decreases oe.len(),
{
    if oe.len() > 0 {
        assert forall|q: int|
            0 <= q < oe.drop_last().len() implies #[trigger] od.drop_last()[q].note_id@
            == oe.drop_last()[q].note_id@ && od.drop_last()[q].vector@
            == oe.drop_last()[q].vector@ by {
            assert(od.drop_last()[q] == od[q]);
            assert(oe.drop_last()[q] == oe[q]);
        }
        lemma_kept_mirror(oe.drop_last(), od.drop_last(), id);
        assert(od.last().note_id@ == oe.last().note_id@);
        assert(od.last().vector@ == oe.last().vector@);
    }
}

} // verus!
