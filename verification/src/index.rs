//! The indexing side of the pipeline: writing and removing a note's
//! vector in the raw-embedding and dense-index tables, always in step,
//! and the single-shot guard around a full reindex.

use vstd::prelude::*;
use crate::chars::str_eq;
use crate::codec::EMBEDDING_BLOB_LEN;
use crate::delete::{dense_kept, emb_kept, lemma_emb_kept};
use crate::errors::SunderError;
use crate::store::{
    has_embedding, has_note_id, idx_of_embedding, DenseRow, EmbeddingRow, Store,
};

verus! {

/// The model tag stored with every embedding row.
pub open spec fn model_version_spec() -> Seq<char> {
    "minilm-v2-q8"@
}

/// What a successful `index_note` does to the store: both embedding
/// tables get the same bytes for this note, inserted or overwritten in
/// place, and nothing else moves.
pub open spec fn index_note_ok_post(
    pre: Store,
    post: Store,
    id: Seq<char>,
    v: Seq<u8>,
    now: Seq<char>,
) -> bool {
    &&& post.notes@ == pre.notes@
    &&& post.fts@ == pre.fts@
    &&& post.edges@ == pre.edges@
    &&& post.settings@ == pre.settings@
    &&& post.applied_migrations@ == pre.applied_migrations@
    &&& if has_embedding(pre.embeddings@, id) {
        let e = idx_of_embedding(pre.embeddings@, id);
        &&& post.embeddings@.len() == pre.embeddings@.len()
        &&& forall|j: int|
            0 <= j < pre.embeddings@.len() && j != e ==> post.embeddings@[j]
                == pre.embeddings@[j]
        &&& post.embeddings@[e].note_id@ == id
        &&& post.embeddings@[e].vector@ == v
        &&& post.embeddings@[e].updated_at@ == now
        &&& post.embeddings@[e].model_version@ == model_version_spec()
        &&& post.dense@.len() == pre.dense@.len()
        &&& forall|j: int|
            0 <= j < pre.dense@.len() && j != e ==> post.dense@[j] == pre.dense@[j]
        &&& post.dense@[e].note_id@ == id
        &&& post.dense@[e].vector@ == v
    } else {
        &&& post.embeddings@.len() == pre.embeddings@.len() + 1
        &&& post.embeddings@.drop_last() == pre.embeddings@
        &&& post.embeddings@.last().note_id@ == id
        &&& post.embeddings@.last().vector@ == v
        &&& post.embeddings@.last().updated_at@ == now
        &&& post.embeddings@.last().model_version@ == model_version_spec()
        &&& post.dense@.len() == pre.dense@.len() + 1
        &&& post.dense@.drop_last() == pre.dense@
        &&& post.dense@.last().note_id@ == id
        &&& post.dense@.last().vector@ == v
    }
}

impl Store {
    /// Finds the position of the embedding row for this note.
    pub fn find_embedding_index(&self, id: &str) -> (r: Option<usize>)
        ensures
            match r {
                Some(i) => i < self.embeddings@.len() && self.embeddings@[i as int].note_id@
                    == id@,
                None => !has_embedding(self.embeddings@, id@),
            },
    {
        let mut i: usize = 0;
        while i < self.embeddings.len()
            invariant
                i <= self.embeddings@.len(),
                forall|k: int| 0 <= k < i ==> self.embeddings@[k].note_id@ != id@,
            decreases self.embeddings@.len() - i,
        {
            if str_eq(self.embeddings[i].note_id.as_str(), id) {
                return Some(i);
            }
            i = i + 1;
        }
        None
    }

    /// Stores a note's vector: upserts the raw embedding row and
    /// replaces the dense-index row, in one step, so the two tables
    /// never disagree. Fails when the note does not exist, as the
    /// foreign key would.
    pub fn index_note(&mut self, note_id: &str, vector: Vec<u8>, now: String) -> (r: Result<
        (),
        SunderError,
    >)
        requires
            old(self).wf(),
            vector@.len() == EMBEDDING_BLOB_LEN as int,
        ensures
            final(self).wf(),
            r is Ok <==> has_note_id(old(self).notes@, note_id@),
            r matches Err(e) ==> *final(self) == *old(self) && e is DatabaseError,
            r is Ok ==> index_note_ok_post(*old(self), *final(self), note_id@, vector@, now@),
    {
        if let None = self.find_note_index(note_id) {
            return Err(
                SunderError::DatabaseError(String::from_str("No note exists with this id")),
            );
        }
        let id_copy: String = String::from_str(note_id);
        let id_copy2: String = String::from_str(note_id);
        let dense_row = DenseRow { note_id: id_copy2, vector: crate::store::clone_bytes(&vector) };
        let emb_row = EmbeddingRow {
            note_id: id_copy,
            vector,
            model_version: String::from_str("minilm-v2-q8"),
            updated_at: now,
        };
        match self.find_embedding_index(note_id) {
            Some(e) => {
                proof {
                    let w = idx_of_embedding(self.embeddings@, note_id@);
                    assert(self.embeddings@[w].note_id@ == note_id@);
                    if w != e as int {
                        assert(false);
                    }
                }
                let _ = self.embeddings.remove(e);
                self.embeddings.insert(e, emb_row);
                let _ = self.dense.remove(e);
                self.dense.insert(e, dense_row);
                proof {
                    assert(self.embeddings@ =~= old(self).embeddings@.update(
                        e as int,
                        self.embeddings@[e as int],
                    ));
                    assert(self.dense@ =~= old(self).dense@.update(
                        e as int,
                        self.dense@[e as int],
                    ));
                }
            },
            None => {
                self.embeddings.push(emb_row);
                self.dense.push(dense_row);
                proof {
                    assert(self.embeddings@.drop_last() =~= old(self).embeddings@);
                    assert(self.dense@.drop_last() =~= old(self).dense@);
                    assert forall|a: int, b: int|
                        0 <= a < b < self.embeddings@.len() implies (#[trigger] self
                        .embeddings@[a]).note_id@ != (#[trigger] self.embeddings@[b]).note_id@ by {
                        if b == self.embeddings@.len() - 1 {
                            assert(self.embeddings@[a] == old(self).embeddings@[a]);
                        }
                    }
                }
            },
        }
        Ok(())
    }
}

/// A note's embedding is removed from both tables together; removing an
/// id that has no row is a no-op.
impl Store {
    pub fn remove_embedding(&mut self, note_id: &str) -> (r: Result<(), SunderError>)
        requires
            old(self).wf(),
        ensures
            final(self).wf(),
            r is Ok,
            final(self).embeddings@ == emb_kept(old(self).embeddings@, note_id@),
            final(self).dense@ == dense_kept(old(self).dense@, note_id@),
            !has_embedding(final(self).embeddings@, note_id@),
            final(self).notes@ == old(self).notes@,
            final(self).fts@ == old(self).fts@,
            final(self).edges@ == old(self).edges@,
            final(self).settings@ == old(self).settings@,
            final(self).applied_migrations@ == old(self).applied_migrations@,
    {
        match self.find_embedding_index(note_id) {
            Some(e) => {
                let _ = self.embeddings.remove(e);
                let _ = self.dense.remove(e);
                proof {
                    lemma_emb_kept_unique_remove(old(self).embeddings@, note_id@, e as int);
                    lemma_dense_kept_unique_remove(old(self).dense@, note_id@, e as int);
                    assert(old(self).dense@[e as int].note_id@ == note_id@);
                    lemma_emb_kept(old(self).embeddings@, note_id@);
                    assert forall|a: int, b: int|
                        0 <= a < b < self.embeddings@.len() implies (#[trigger] self
                        .embeddings@[a]).note_id@ != (#[trigger] self.embeddings@[b]).note_id@ by {
                        let oa = if a < e as int {
                            a
                        } else {
                            a + 1
                        };
                        let ob = if b < e as int {
                            b
                        } else {
                            b + 1
                        };
                        assert(self.embeddings@[a] == old(self).embeddings@[oa]);
                        assert(self.embeddings@[b] == old(self).embeddings@[ob]);
                    }
                    assert forall|a: int| 0 <= a < self.embeddings@.len() implies has_note_id(
                        self.notes@,
                        (#[trigger] self.embeddings@[a]).note_id@,
                    ) && self.embeddings@[a].vector@.len() == EMBEDDING_BLOB_LEN as int by {
                        let oa = if a < e as int {
                            a
                        } else {
                            a + 1
                        };
                        assert(self.embeddings@[a] == old(self).embeddings@[oa]);
                    }
                    assert forall|a: int| 0 <= a < self.dense@.len() implies (#[trigger] self
                        .dense@[a]).note_id@ == self.embeddings@[a].note_id@ && self
                        .dense@[a].vector@ == self.embeddings@[a].vector@ by {
                        let oa = if a < e as int {
                            a
                        } else {
                            a + 1
                        };
                        assert(self.embeddings@[a] == old(self).embeddings@[oa]);
                        assert(self.dense@[a] == old(self).dense@[oa]);
                    }
                    if has_embedding(self.embeddings@, note_id@) {
                        let w = choose|w: int|
                            0 <= w < self.embeddings@.len() && self.embeddings@[w].note_id@
                                == note_id@;
                        assert(false);
                    }
                }
                Ok(())
            },
            None => {
                proof {
                    lemma_emb_kept_nomatch(self.embeddings@, note_id@);
                    assert forall|k: int| 0 <= k < self.dense@.len() implies (#[trigger] self
                        .dense@[k]).note_id@ != note_id@ by {
                        assert(self.dense@[k].note_id@ == self.embeddings@[k].note_id@);
                    }
                    lemma_dense_kept_nomatch(self.dense@, note_id@);
                }
                Ok(())
            },
        }
    }
}

/// Removing nothing leaves the rows as they were.
proof fn lemma_emb_kept_nomatch(rows: Seq<EmbeddingRow>, id: Seq<char>)
    requires
        forall|k: int| 0 <= k < rows.len() ==> (#[trigger] rows[k]).note_id@ != id,
    ensures
        emb_kept(rows, id) == rows,
    decreases rows.len(),
{
    if rows.len() > 0 {
        assert forall|k: int|
            0 <= k < rows.drop_last().len() implies (#[trigger] rows.drop_last()[k]).note_id@
            != id by {
            assert(rows.drop_last()[k] == rows[k]);
        }
        lemma_emb_kept_nomatch(rows.drop_last(), id);
        assert(emb_kept(rows, id) =~= rows);
    }
}

proof fn lemma_dense_kept_nomatch(rows: Seq<DenseRow>, id: Seq<char>)
    requires
        forall|k: int| 0 <= k < rows.len() ==> (#[trigger] rows[k]).note_id@ != id,
    ensures
        dense_kept(rows, id) == rows,
    decreases rows.len(),
{
    if rows.len() > 0 {
        assert forall|k: int|
            0 <= k < rows.drop_last().len() implies (#[trigger] rows.drop_last()[k]).note_id@
            != id by {
            assert(rows.drop_last()[k] == rows[k]);
        }
        lemma_dense_kept_nomatch(rows.drop_last(), id);
        assert(dense_kept(rows, id) =~= rows);
    }
}

/// With unique ids, the surviving rows are exactly the rows with the
/// matching one removed.
proof fn lemma_emb_kept_unique_remove(rows: Seq<EmbeddingRow>, id: Seq<char>, e: int)
    requires
        forall|a: int, b: int|
            0 <= a < b < rows.len() ==> (#[trigger] rows[a]).note_id@
                != (#[trigger] rows[b]).note_id@,
        0 <= e < rows.len(),
        rows[e].note_id@ == id,
    ensures
        emb_kept(rows, id) == rows.remove(e),
    decreases rows.len(),
{
    let dl = rows.drop_last();
    assert forall|a: int, b: int|
        0 <= a < b < dl.len() implies (#[trigger] dl[a]).note_id@
        != (#[trigger] dl[b]).note_id@ by {
        assert(dl[a] == rows[a]);
        assert(dl[b] == rows[b]);
    }
    if e == rows.len() - 1 {
        assert forall|k: int| 0 <= k < dl.len() implies (#[trigger] dl[k]).note_id@ != id by {
            assert(dl[k] == rows[k]);
            assert(rows[k].note_id@ != rows[e].note_id@);
        }
        lemma_emb_kept_nomatch(dl, id);
        assert(rows.remove(e) =~= dl);
    } else {
        assert(dl[e] == rows[e]);
        assert(rows.last().note_id@ != rows[e].note_id@);
        lemma_emb_kept_unique_remove(dl, id, e);
        assert(emb_kept(rows, id) == emb_kept(dl, id).push(rows.last()));
        assert(rows.remove(e) =~= dl.remove(e).push(rows.last()));
    }
}

proof fn lemma_dense_kept_unique_remove(rows: Seq<DenseRow>, id: Seq<char>, e: int)
    requires
        forall|a: int, b: int|
            0 <= a < b < rows.len() ==> (#[trigger] rows[a]).note_id@
                != (#[trigger] rows[b]).note_id@,
        0 <= e < rows.len(),
        rows[e].note_id@ == id,
    ensures
        dense_kept(rows, id) == rows.remove(e),
    decreases rows.len(),
{
    let dl = rows.drop_last();
    assert forall|a: int, b: int|
        0 <= a < b < dl.len() implies (#[trigger] dl[a]).note_id@
        != (#[trigger] dl[b]).note_id@ by {
        assert(dl[a] == rows[a]);
        assert(dl[b] == rows[b]);
    }
    if e == rows.len() - 1 {
        assert forall|k: int| 0 <= k < dl.len() implies (#[trigger] dl[k]).note_id@ != id by {
            assert(dl[k] == rows[k]);
            assert(rows[k].note_id@ != rows[e].note_id@);
        }
        lemma_dense_kept_nomatch(dl, id);
        assert(rows.remove(e) =~= dl);
    } else {
        assert(dl[e] == rows[e]);
        assert(rows.last().note_id@ != rows[e].note_id@);
        lemma_dense_kept_unique_remove(dl, id, e);
        assert(dense_kept(rows, id) == dense_kept(dl, id).push(rows.last()));
        assert(rows.remove(e) =~= dl.remove(e).push(rows.last()));
    }
}

/// Indexing the same content twice leaves every table with the same
/// bytes; only the embedding row's timestamp may move.
pub proof fn lemma_index_note_idempotent(
    pre: Store,
    mid: Store,
    fin: Store,
    id: Seq<char>,
    v: Seq<u8>,
    now1: Seq<char>,
    now2: Seq<char>,
)
    requires
        pre.wf(),
        mid.wf(),
        has_note_id(pre.notes@, id),
        index_note_ok_post(pre, mid, id, v, now1),
        index_note_ok_post(mid, fin, id, v, now2),
    ensures
        fin.notes@ == mid.notes@,
        fin.fts@ == mid.fts@,
        fin.edges@ == mid.edges@,
        fin.settings@ == mid.settings@,
        fin.applied_migrations@ == mid.applied_migrations@,
        fin.embeddings@.len() == mid.embeddings@.len(),
        forall|j: int|
            0 <= j < mid.embeddings@.len() ==> (#[trigger] fin.embeddings@[j]).note_id@
                == mid.embeddings@[j].note_id@ && fin.embeddings@[j].vector@
                == mid.embeddings@[j].vector@ && fin.embeddings@[j].model_version@
                == mid.embeddings@[j].model_version@,
        fin.dense@.len() == mid.dense@.len(),
        forall|j: int|
            0 <= j < mid.dense@.len() ==> (#[trigger] fin.dense@[j]).note_id@
                == mid.dense@[j].note_id@ && fin.dense@[j].vector@ == mid.dense@[j].vector@,
{
    let e1 = if has_embedding(pre.embeddings@, id) {
        idx_of_embedding(pre.embeddings@, id)
    } else {
        pre.embeddings@.len() as int
    };
    // after the first call the id has a row at e1
    assert(mid.embeddings@[e1].note_id@ == id);
    assert(has_embedding(mid.embeddings@, id));
    let e2 = idx_of_embedding(mid.embeddings@, id);
    assert(mid.embeddings@[e2].note_id@ == id);
    if e2 != e1 {
        assert(mid.embeddings@[e2].note_id@ != mid.embeddings@[e1].note_id@);
    }
    assert(fin.dense@.len() == mid.dense@.len());
}

/// The single-shot guard around a full reindex: only one holder at a
/// time; a host wraps it in its own mutual exclusion and runs the
/// embedding work between `try_begin` and `end`.
pub struct ReindexFlag {
    pub running: bool,
}

impl ReindexFlag {
    pub fn new() -> (r: ReindexFlag)
        ensures
            !r.running,
    {
        ReindexFlag { running: false }
    }

    /// Claims the flag. Exactly one of two consecutive claims succeeds;
    /// the loser is told to fail with `AlreadyRunning`.
    pub fn try_begin(&mut self) -> (r: bool)
        ensures
            final(self).running,
            r == !old(self).running,
    {
        let was: bool = self.running;
        self.running = true;
        !was
    }

    /// Releases the flag after the run.
    pub fn end(&mut self)
        ensures
            !final(self).running,
    {
        self.running = false;
    }
}

} // verus!
