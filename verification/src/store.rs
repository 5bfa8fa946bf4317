//! The in-memory model of the storage layer: the notes table, its
//! full-text shadow, the two embedding tables, the pairwise similarity
//! cache and the settings map, with the invariants that couple them.
//!
//! A host shell mirrors this state to an embedded database; every
//! mutation of the model is verified to keep the coupling invariants:
//! each note has exactly one shadow row with the same title and content,
//! the raw and dense embedding tables hold the same ids and bytes, every
//! similarity edge is a canonically ordered pair of existing notes, and
//! each note's word count is derived from its content.

use vstd::prelude::*;
use crate::chars::{lex_lt, str_eq};
use crate::errors::SunderError;
use crate::text::{content_ok, title_ok, trim_spec, validate_content, validate_title};
use crate::words::{word_count, word_count_spec};

verus! {

/// A note as the editor sees it.
pub struct Note {
    pub id: String,
    pub title: String,
    pub content: String,
    pub file_path: Option<String>,
    pub word_count: u32,
    pub created_at: String,
    pub updated_at: String,
}

/// A row of the lexical shadow index, coupled by position to a note.
pub struct FtsRow {
    pub title: String,
    pub content: String,
}

/// A raw embedding row: the encoded vector bytes with provenance.
pub struct EmbeddingRow {
    pub note_id: String,
    pub vector: Vec<u8>,
    pub model_version: String,
    pub updated_at: String,
}

/// A row of the nearest-neighbour index, mirroring a raw embedding row.
pub struct DenseRow {
    pub note_id: String,
    pub vector: Vec<u8>,
}

/// One cached pairwise similarity, canonically ordered.
/// The score is a cosine similarity in millionths, in `[-1e6, 1e6]`.
pub struct EdgeRow {
    pub note_id_a: String,
    pub note_id_b: String,
    pub similarity_micros: i64,
    pub updated_at: String,
}

/// One persisted setting.
pub struct SettingRow {
    pub key: String,
    pub value: String,
}

/// The whole modelled store.
pub struct Store {
    pub notes: Vec<Note>,
    pub fts: Vec<FtsRow>,
    pub embeddings: Vec<EmbeddingRow>,
    pub dense: Vec<DenseRow>,
    pub edges: Vec<EdgeRow>,
    pub settings: Vec<SettingRow>,
    pub applied_migrations: Vec<u32>,
}

/// View of an optional string.
pub open spec fn opt_view(o: Option<String>) -> Option<Seq<char>> {
    match o {
        Some(s) => Some(s@),
        None => None,
    }
}

pub open spec fn has_note_id(notes: Seq<Note>, id: Seq<char>) -> bool {
    exists|i: int| 0 <= i < notes.len() && notes[i].id@ == id
}

pub open spec fn has_note_path(notes: Seq<Note>, p: Seq<char>) -> bool {
    exists|i: int| 0 <= i < notes.len() && opt_view(notes[i].file_path) == Some(p)
}

/// The index of the note with this id; meaningful under `notes_wf`.
pub open spec fn idx_of_note(notes: Seq<Note>, id: Seq<char>) -> int {
    choose|i: int| 0 <= i < notes.len() && notes[i].id@ == id
}

pub open spec fn notes_wf(notes: Seq<Note>) -> bool {
    &&& forall|i: int, j: int|
        0 <= i < j < notes.len() ==> #[trigger] notes[i].id@ != #[trigger] notes[j].id@
    &&& forall|i: int, j: int|
        0 <= i < j < notes.len() && #[trigger] opt_view(notes[i].file_path) is Some ==> opt_view(
            notes[i].file_path,
        ) != #[trigger] opt_view(notes[j].file_path)
    &&& forall|i: int|
        0 <= i < notes.len() ==> #[trigger] notes[i].word_count == word_count_spec(
            notes[i].content@,
        )
}

pub open spec fn fts_mirrors(fts: Seq<FtsRow>, notes: Seq<Note>) -> bool {
    &&& fts.len() == notes.len()
    &&& forall|i: int|
        0 <= i < notes.len() ==> #[trigger] fts[i].title@ == notes[i].title@ && fts[i].content@
            == notes[i].content@
}

pub open spec fn has_embedding(embs: Seq<EmbeddingRow>, id: Seq<char>) -> bool {
    exists|i: int| 0 <= i < embs.len() && embs[i].note_id@ == id
}

pub open spec fn idx_of_embedding(embs: Seq<EmbeddingRow>, id: Seq<char>) -> int {
    choose|i: int| 0 <= i < embs.len() && embs[i].note_id@ == id
}

pub open spec fn embeddings_wf(embs: Seq<EmbeddingRow>, notes: Seq<Note>) -> bool {
    &&& forall|i: int, j: int|
        0 <= i < j < embs.len() ==> #[trigger] embs[i].note_id@ != #[trigger] embs[j].note_id@
    &&& forall|i: int| 0 <= i < embs.len() ==> has_note_id(notes, #[trigger] embs[i].note_id@)
    &&& forall|i: int|
        0 <= i < embs.len() ==> (#[trigger] embs[i].vector@).len()
            == crate::codec::EMBEDDING_BLOB_LEN as int
}

pub open spec fn dense_mirrors(dense: Seq<DenseRow>, embs: Seq<EmbeddingRow>) -> bool {
    &&& dense.len() == embs.len()
    &&& forall|i: int|
        0 <= i < embs.len() ==> #[trigger] dense[i].note_id@ == embs[i].note_id@
            && dense[i].vector@ == embs[i].vector@
}

pub open spec fn edges_wf(edges: Seq<EdgeRow>, notes: Seq<Note>) -> bool {
    &&& forall|i: int|
        0 <= i < edges.len() ==> lex_lt(
            #[trigger] edges[i].note_id_a@,
            edges[i].note_id_b@,
        )
    &&& forall|i: int| 0 <= i < edges.len() ==> has_note_id(notes, #[trigger] edges[i].note_id_a@)
    &&& forall|i: int| 0 <= i < edges.len() ==> has_note_id(notes, #[trigger] edges[i].note_id_b@)
    &&& forall|i: int, j: int|
        0 <= i < j < edges.len() ==> !(#[trigger] edges[i].note_id_a@ == #[trigger] edges[j].note_id_a@
            && edges[i].note_id_b@ == edges[j].note_id_b@)
    &&& forall|i: int|
        0 <= i < edges.len() ==> -1000000 <= #[trigger] edges[i].similarity_micros <= 1000000
}

pub open spec fn settings_wf(settings: Seq<SettingRow>) -> bool {
    forall|i: int, j: int|
        0 <= i < j < settings.len() ==> #[trigger] settings[i].key@ != #[trigger] settings[j].key@
}

pub open spec fn migrations_wf(applied: Seq<u32>) -> bool {
    forall|i: int, j: int| 0 <= i < j < applied.len() ==> applied[i] != applied[j]
}

impl Store {
    /// The well-formedness invariant every public operation preserves.
    pub open spec fn wf(self) -> bool {
        &&& notes_wf(self.notes@)
        &&& fts_mirrors(self.fts@, self.notes@)
        &&& embeddings_wf(self.embeddings@, self.notes@)
        &&& dense_mirrors(self.dense@, self.embeddings@)
        &&& edges_wf(self.edges@, self.notes@)
        &&& settings_wf(self.settings@)
        &&& migrations_wf(self.applied_migrations@)
        &&& self.notes@.len() <= 0xffff_ffff
    }

    /// An empty store, with no schema applied yet.
    pub fn new() -> (r: Store)
        ensures
            r.wf(),
            r.notes@.len() == 0,
            r.fts@.len() == 0,
            r.embeddings@.len() == 0,
            r.dense@.len() == 0,
            r.edges@.len() == 0,
            r.settings@.len() == 0,
            r.applied_migrations@.len() == 0,
    {
        Store {
            notes: Vec::new(),
            fts: Vec::new(),
            embeddings: Vec::new(),
            dense: Vec::new(),
            edges: Vec::new(),
            settings: Vec::new(),
            applied_migrations: Vec::new(),
        }
    }

    /// Finds the position of the note with this id.
    pub fn find_note_index(&self, id: &str) -> (r: Option<usize>)
        ensures
            match r {
                Some(i) => i < self.notes@.len() && self.notes@[i as int].id@ == id@,
                None => !has_note_id(self.notes@, id@),
            },
    {
        let mut i: usize = 0;
        while i < self.notes.len()
            invariant
                i <= self.notes@.len(),
                forall|k: int| 0 <= k < i ==> self.notes@[k].id@ != id@,
            decreases self.notes@.len() - i,
        {
            if str_eq(self.notes[i].id.as_str(), id) {
                return Some(i);
            }
            i = i + 1;
        }
        None
    }

    /// Finds the position of the note with this file path.
    pub fn find_note_by_path(&self, path: &str) -> (r: Option<usize>)
        ensures
            match r {
                Some(i) => i < self.notes@.len() && opt_view(self.notes@[i as int].file_path)
                    == Some(path@),
                None => !has_note_path(self.notes@, path@),
            },
    {
        let mut i: usize = 0;
        while i < self.notes.len()
            invariant
                i <= self.notes@.len(),
                forall|k: int| 0 <= k < i ==> opt_view(self.notes@[k].file_path) != Some(path@),
            decreases self.notes@.len() - i,
        {
            match &self.notes[i].file_path {
                Some(p) => {
                    if str_eq(p.as_str(), path) {
                        proof {
                            assert(opt_view(self.notes@[i as int].file_path) == Some(path@));
                        }
                        return Some(i);
                    }
                },
                None => {},
            }
            i = i + 1;
        }
        None
    }
}

/// Copies a byte vector.
pub fn clone_bytes(v: &Vec<u8>) -> (r: Vec<u8>)
    ensures
        r@ == v@,
{
    let mut r: Vec<u8> = Vec::new();
    let mut i: usize = 0;
    while i < v.len()
        invariant
            i <= v@.len(),
            r@ == v@.take(i as int),
        decreases v@.len() - i,
    {
        r.push(v[i]);
        proof {
            assert(v@.take(i + 1) =~= v@.take(i as int).push(v@[i as int]));
        }
        i = i + 1;
    }
    proof {
        assert(v@.take(v@.len() as int) =~= v@);
    }
    r
}

/// Copies an optional string.
pub fn clone_opt_string(o: &Option<String>) -> (r: Option<String>)
    ensures
        r == *o,
{
    match o {
        Some(p) => Some(p.clone()),
        None => None,
    }
}

/// Copies a note.
pub fn clone_note(n: &Note) -> (r: Note)
    ensures
        r == *n,
{
    Note {
        id: n.id.clone(),
        title: n.title.clone(),
        content: n.content.clone(),
        file_path: clone_opt_string(&n.file_path),
        word_count: n.word_count,
        created_at: n.created_at.clone(),
        updated_at: n.updated_at.clone(),
    }
}

impl Store {
    /// Creates a note: trims and validates the title, validates the
    /// content size, rejects a duplicate file path or id, and appends
    /// the note together with its shadow row. The caller supplies the
    /// fresh id and the timestamp.
    pub fn create_note(
        &mut self,
        title: &str,
        content: String,
        file_path: Option<String>,
        id: String,
        now: String,
    ) -> (r: Result<Note, SunderError>)
        requires
            old(self).wf(),
            old(self).notes@.len() < 0xffff_ffff,
        ensures
            final(self).wf(),
            r is Ok <==> (title_ok(trim_spec(title@)) && content_ok(content@) && (opt_view(
                file_path,
            ) matches Some(p) ==> !has_note_path(old(self).notes@, p)) && !has_note_id(
                old(self).notes@,
                id@,
            )),
            r matches Err(e) ==> {
                &&& *final(self) == *old(self)
                &&& (!title_ok(trim_spec(title@)) ==> e is ValidationError)
                &&& (title_ok(trim_spec(title@)) && !content_ok(content@) ==> e is ContentTooLarge)
                &&& (title_ok(trim_spec(title@)) && content_ok(content@) && (opt_view(file_path)
                    matches Some(p) && has_note_path(old(self).notes@, p))
                    ==> e is AlreadyExists)
                &&& (title_ok(trim_spec(title@)) && content_ok(content@) && (opt_view(file_path)
                    matches Some(p) ==> !has_note_path(old(self).notes@, p))
                    ==> e is DatabaseError)
            },
            r matches Ok(n) ==> {
                &&& final(self).notes@.len() == old(self).notes@.len() + 1
                &&& final(self).notes@.drop_last() == old(self).notes@
                &&& n == final(self).notes@.last()
                &&& n.id@ == id@
                &&& n.title@ == trim_spec(title@)
                &&& n.content@ == content@
                &&& opt_view(n.file_path) == opt_view(file_path)
                &&& n.word_count == word_count_spec(content@)
                &&& n.created_at@ == now@
                &&& n.updated_at@ == now@
                &&& final(self).fts@.len() == old(self).fts@.len() + 1
                &&& final(self).fts@.drop_last() == old(self).fts@
                &&& final(self).fts@.last().title@ == trim_spec(title@)
                &&& final(self).fts@.last().content@ == content@
                &&& final(self).embeddings@ == old(self).embeddings@
                &&& final(self).dense@ == old(self).dense@
                &&& final(self).edges@ == old(self).edges@
                &&& final(self).settings@ == old(self).settings@
                &&& final(self).applied_migrations@ == old(self).applied_migrations@
            },
    {
        let trimmed: String = match validate_title(title) {
            Ok(t) => t,
            Err(e) => {
                return Err(e);
            },
        };
        match validate_content(content.as_str()) {
            Ok(()) => {},
            Err(e) => {
                return Err(e);
            },
        }
        match &file_path {
            Some(p) => {
                if let Some(_) = self.find_note_by_path(p.as_str()) {
                    return Err(
                        SunderError::AlreadyExists(
                            String::from_str("A note already exists for this file path"),
                        ),
                    );
                }
            },
            None => {},
        }
        if let Some(_) = self.find_note_index(id.as_str()) {
            return Err(
                SunderError::DatabaseError(String::from_str("A note already exists with this id")),
            );
        }
        let wc: usize = word_count(content.as_str());
        proof {
            crate::words::lemma_tokens_count_le(content@);
            crate::chars::lemma_byte_len_bounds(content@);
        }
        let fts_row = FtsRow { title: trimmed.clone(), content: content.clone() };
        let note = Note {
            id,
            title: trimmed,
            content,
            file_path,
            word_count: wc as u32,
            created_at: now.clone(),
            updated_at: now,
        };
        let out = clone_note(&note);
        self.notes.push(note);
        self.fts.push(fts_row);
        proof {
            assert(self.notes@.drop_last() =~= old(self).notes@);
            assert(self.fts@.drop_last() =~= old(self).fts@);
            assert forall|i: int, j: int| 0 <= i < j < self.notes@.len() implies #[trigger] self
                .notes@[i].id@ != #[trigger] self.notes@[j].id@ by {
                if j == self.notes@.len() - 1 {
                    assert(!has_note_id(old(self).notes@, self.notes@[j].id@));
                    assert(old(self).notes@[i] == self.notes@[i]);
                }
            }
            assert forall|i: int, j: int|
                0 <= i < j < self.notes@.len() && #[trigger] opt_view(self.notes@[i].file_path)
                    is Some implies opt_view(self.notes@[i].file_path) != #[trigger] opt_view(
                self.notes@[j].file_path,
            ) by {
                if j == self.notes@.len() - 1 {
                    if opt_view(self.notes@[j].file_path) is Some {
                        assert(!has_note_path(
                            old(self).notes@,
                            opt_view(self.notes@[j].file_path)->0,
                        ));
                        assert(old(self).notes@[i] == self.notes@[i]);
                    }
                }
            }
            assert forall|i: int| 0 <= i < self.embeddings@.len() implies has_note_id(
                self.notes@,
                #[trigger] self.embeddings@[i].note_id@,
            ) by {
                assert(has_note_id(old(self).notes@, self.embeddings@[i].note_id@));
                let w = idx_of_note(old(self).notes@, self.embeddings@[i].note_id@);
                assert(self.notes@[w].id@ == self.embeddings@[i].note_id@);
            }
            assert forall|i: int| 0 <= i < self.edges@.len() implies has_note_id(
                self.notes@,
                #[trigger] self.edges@[i].note_id_a@,
            ) && has_note_id(self.notes@, self.edges@[i].note_id_b@) by {
                let wa = idx_of_note(old(self).notes@, self.edges@[i].note_id_a@);
                assert(self.notes@[wa].id@ == self.edges@[i].note_id_a@);
                let wb = idx_of_note(old(self).notes@, self.edges@[i].note_id_b@);
                assert(self.notes@[wb].id@ == self.edges@[i].note_id_b@);
            }
        }
        Ok(out)
    }

    /// Looks a note up by id.
    pub fn get_note(&self, id: &str) -> (r: Result<Note, SunderError>)
        requires
            self.wf(),
        ensures
            r is Ok <==> has_note_id(self.notes@, id@),
            r matches Ok(n) ==> exists|i: int|
                0 <= i < self.notes@.len() && n == self.notes@[i] && n.id@ == id@,
            r matches Err(e) ==> e is NotFound,
    {
        match self.find_note_index(id) {
            Some(i) => {
                let n = clone_note(&self.notes[i]);
                proof {
                    assert(n == self.notes@[i as int] && n.id@ == id@);
                }
                Ok(n)
            },
            None => Err(SunderError::NotFound(String::from_str("Note not found"))),
        }
    }

    /// Looks a note up by file path; an absent row is not an error.
    pub fn get_note_by_file_path(&self, path: &str) -> (r: Option<Note>)
        requires
            self.wf(),
        ensures
            r is Some <==> has_note_path(self.notes@, path@),
            r matches Some(n) ==> exists|i: int|
                0 <= i < self.notes@.len() && n == self.notes@[i] && opt_view(n.file_path) == Some(
                    path@,
                ),
    {
        match self.find_note_by_path(path) {
            Some(i) => {
                let n = clone_note(&self.notes[i]);
                proof {
                    assert(n == self.notes@[i as int] && opt_view(n.file_path) == Some(path@));
                }
                Some(n)
            },
            None => None,
        }
    }

    /// Updates a note's title and/or content, recomputes its word count,
    /// sets its update timestamp, and keeps the shadow row in step.
    pub fn update_note(
        &mut self,
        id: &str,
        title: Option<String>,
        content: Option<String>,
        now: String,
    ) -> (r: Result<Note, SunderError>)
        requires
            old(self).wf(),
        ensures
            final(self).wf(),
            r is Ok <==> (has_note_id(old(self).notes@, id@) && (title matches Some(t)
                ==> title_ok(trim_spec(t@))) && (content matches Some(c) ==> content_ok(c@))),
            r matches Err(e) ==> {
                &&& *final(self) == *old(self)
                &&& (!has_note_id(old(self).notes@, id@) ==> e is NotFound)
                &&& (has_note_id(old(self).notes@, id@) && (title matches Some(t) && !title_ok(
                    trim_spec(t@),
                )) ==> e is ValidationError)
                &&& (has_note_id(old(self).notes@, id@) && (title matches Some(t) ==> title_ok(
                    trim_spec(t@),
                )) ==> e is ContentTooLarge)
            },
            r matches Ok(n) ==> {
                let i = idx_of_note(old(self).notes@, id@);
                &&& 0 <= i < old(self).notes@.len()
                &&& final(self).notes@.len() == old(self).notes@.len()
                &&& forall|j: int|
                    0 <= j < final(self).notes@.len() && j != i ==> final(self).notes@[j] == old(self).notes@[j]
                &&& n == final(self).notes@[i]
                &&& n.id@ == id@
                &&& n.title@ == (if title is Some {
                    trim_spec(title->0@)
                } else {
                    old(self).notes@[i].title@
                })
                &&& n.content@ == (if content is Some {
                    content->0@
                } else {
                    old(self).notes@[i].content@
                })
                &&& n.word_count == word_count_spec(n.content@)
                &&& n.created_at@ == old(self).notes@[i].created_at@
                &&& opt_view(n.file_path) == opt_view(old(self).notes@[i].file_path)
                &&& n.updated_at@ == now@
                &&& final(self).fts@.len() == old(self).fts@.len()
                &&& forall|j: int|
                    0 <= j < final(self).fts@.len() && j != i ==> final(self).fts@[j] == old(self).fts@[j]
                &&& final(self).fts@[i].title@ == n.title@
                &&& final(self).fts@[i].content@ == n.content@
                &&& final(self).embeddings@ == old(self).embeddings@
                &&& final(self).dense@ == old(self).dense@
                &&& final(self).edges@ == old(self).edges@
                &&& final(self).settings@ == old(self).settings@
                &&& final(self).applied_migrations@ == old(self).applied_migrations@
            },
    {
        let i: usize = match self.find_note_index(id) {
            Some(i) => i,
            None => {
                return Err(SunderError::NotFound(String::from_str("Note not found")));
            },
        };
        proof {
            let w = idx_of_note(self.notes@, id@);
            assert(self.notes@[i as int].id@ == id@);
            assert(self.notes@[w].id@ == id@);
            if w != i as int {
                assert(false);
            }
        }
        let new_title: String = match &title {
            Some(t) => {
                match validate_title(t.as_str()) {
                    Ok(tt) => tt,
                    Err(e) => {
                        return Err(e);
                    },
                }
            },
            None => self.notes[i].title.clone(),
        };
        let new_content: String = match &content {
            Some(c) => {
                match validate_content(c.as_str()) {
                    Ok(()) => c.clone(),
                    Err(e) => {
                        return Err(e);
                    },
                }
            },
            None => self.notes[i].content.clone(),
        };
        let wc: usize = word_count(new_content.as_str());
        proof {
            crate::words::lemma_tokens_count_le(new_content@);
            crate::chars::lemma_byte_len_bounds(new_content@);
            if content is Some {
                assert(content_ok(new_content@));
            } else {
                assert(new_content@ == old(self).notes@[i as int].content@);
                assert(word_count_spec(new_content@) == old(self).notes@[i as int].word_count);
            }
        }
        let old_note = &self.notes[i];
        let note = Note {
            id: old_note.id.clone(),
            title: new_title.clone(),
            content: new_content.clone(),
            file_path: clone_opt_string(&old_note.file_path),
            word_count: wc as u32,
            created_at: old_note.created_at.clone(),
            updated_at: now,
        };
        let fts_row = FtsRow { title: new_title, content: new_content };
        let out = clone_note(&note);
        let _ = self.notes.remove(i);
        self.notes.insert(i, note);
        let _ = self.fts.remove(i);
        self.fts.insert(i, fts_row);
        proof {
            assert(self.notes@ =~= old(self).notes@.update(i as int, self.notes@[i as int]));
            assert(self.fts@ =~= old(self).fts@.update(i as int, self.fts@[i as int]));
            assert forall|j: int|
                0 <= j < self.notes@.len() && j != i as int implies self.notes@[j] == old(
                self,
            ).notes@[j] by {}
            assert forall|k: int| 0 <= k < self.embeddings@.len() implies has_note_id(
                self.notes@,
                #[trigger] self.embeddings@[k].note_id@,
            ) by {
                let w = idx_of_note(old(self).notes@, self.embeddings@[k].note_id@);
                if w == i as int {
                    assert(self.notes@[i as int].id@ == id@);
                } else {
                    assert(self.notes@[w].id@ == self.embeddings@[k].note_id@);
                }
            }
            assert forall|k: int| 0 <= k < self.edges@.len() implies has_note_id(
                self.notes@,
                #[trigger] self.edges@[k].note_id_a@,
            ) && has_note_id(self.notes@, self.edges@[k].note_id_b@) by {
                let wa = idx_of_note(old(self).notes@, self.edges@[k].note_id_a@);
                if wa == i as int {
                    assert(self.notes@[i as int].id@ == id@);
                } else {
                    assert(self.notes@[wa].id@ == self.edges@[k].note_id_a@);
                }
                let wb = idx_of_note(old(self).notes@, self.edges@[k].note_id_b@);
                if wb == i as int {
                    assert(self.notes@[i as int].id@ == id@);
                } else {
                    assert(self.notes@[wb].id@ == self.edges@[k].note_id_b@);
                }
            }
        }
        Ok(out)
    }
}

} // verus!
