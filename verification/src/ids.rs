//! Fresh note ids and timestamps, and the note operations that draw
//! them. Both come from outside calls whose values depend on the clock,
//! so nothing is promised of them beyond their shape; the operations
//! state what holds whatever came back.

use vstd::prelude::*;
use crate::errors::SunderError;
use crate::store::{has_note_id, has_note_path, opt_view, Note, Store};
use crate::text::{content_ok, title_ok, trim_spec};
use crate::words::word_count_spec;

verus! {

/// Draws a fresh time-ordered note id.
/// Relies on `uuid::Uuid::now_v7` and its `Display` form: a hyphenated
/// UUID, 36 characters long. Freshness is not promised; callers check.
#[verifier::external_body]
pub fn new_note_id() -> (r: String)
    ensures
        r@.len() == 36,
{
    uuid::Uuid::now_v7().to_string()
}

/// Reads the current instant.
/// Relies on `chrono::Utc::now` and `DateTime::to_rfc3339`: an RFC-3339
/// timestamp string. Which instant it is depends on the clock.
#[verifier::external_body]
pub fn now_rfc3339() -> (r: String)
    ensures
        r@.len() >= 20,
{
    chrono::Utc::now().to_rfc3339()
}

impl Store {
    /// Creates a note with a freshly drawn id and the current time.
    /// The drawn id is checked like any other; in the unlikely event it
    /// collides, the error surfaces as a storage error.
    pub fn create_note_now(
        &mut self,
        title: &str,
        content: String,
        file_path: Option<String>,
    ) -> (r: Result<Note, SunderError>)
        requires
            old(self).wf(),
            old(self).notes@.len() < 0xffff_ffff,
        ensures
            final(self).wf(),
            r is Ok ==> (title_ok(trim_spec(title@)) && content_ok(content@) && (opt_view(
                file_path,
            ) matches Some(p) ==> !has_note_path(old(self).notes@, p))),
            r matches Err(e) ==> {
                &&& *final(self) == *old(self)
                &&& (!title_ok(trim_spec(title@)) ==> e is ValidationError)
                &&& (title_ok(trim_spec(title@)) && !content_ok(content@) ==> e is ContentTooLarge)
                &&& (title_ok(trim_spec(title@)) && content_ok(content@) && (opt_view(file_path)
                    matches Some(p) && has_note_path(old(self).notes@, p))
                    ==> e is AlreadyExists)
                &&& (title_ok(trim_spec(title@)) && content_ok(content@) && (opt_view(file_path)
                    matches Some(p) ==> !has_note_path(old(self).notes@, p))
                    ==> e is DatabaseError)
            },
            r matches Ok(n) ==> {
                &&& final(self).notes@.len() == old(self).notes@.len() + 1
                &&& final(self).notes@.drop_last() == old(self).notes@
                &&& n == final(self).notes@.last()
                &&& n.id@.len() == 36
                &&& n.title@ == trim_spec(title@)
                &&& n.content@ == content@
                &&& opt_view(n.file_path) == opt_view(file_path)
                &&& n.word_count == word_count_spec(content@)
                &&& final(self).fts@.len() == old(self).fts@.len() + 1
                &&& final(self).fts@.drop_last() == old(self).fts@
                &&& final(self).embeddings@ == old(self).embeddings@
                &&& final(self).dense@ == old(self).dense@
                &&& final(self).edges@ == old(self).edges@
                &&& final(self).settings@ == old(self).settings@
                &&& final(self).applied_migrations@ == old(self).applied_migrations@
            },
    {
        let id: String = new_note_id();
        let now: String = now_rfc3339();
        self.create_note(title, content, file_path, id, now)
    }

    /// Updates a note, stamping it with the current time.
    pub fn update_note_now(
        &mut self,
        id: &str,
        title: Option<String>,
        content: Option<String>,
    ) -> (r: Result<Note, SunderError>)
        requires
            old(self).wf(),
        ensures
            final(self).wf(),
            r is Ok <==> (has_note_id(old(self).notes@, id@) && (title matches Some(t)
                ==> title_ok(trim_spec(t@))) && (content matches Some(c) ==> content_ok(c@))),
            r matches Err(e) ==> *final(self) == *old(self),
            r matches Ok(n) ==> {
                let i = crate::store::idx_of_note(old(self).notes@, id@);
                &&& 0 <= i < old(self).notes@.len()
                &&& final(self).notes@.len() == old(self).notes@.len()
                &&& forall|j: int|
                    0 <= j < final(self).notes@.len() && j != i ==> final(self).notes@[j] == old(
                        self,
                    ).notes@[j]
                &&& n == final(self).notes@[i]
                &&& n.id@ == id@
                &&& n.title@ == (if title is Some {
                    trim_spec(title->0@)
                } else {
                    old(self).notes@[i].title@
                })
                &&& n.content@ == (if content is Some {
                    content->0@
                } else {
                    old(self).notes@[i].content@
                })
                &&& n.word_count == word_count_spec(n.content@)
                &&& final(self).embeddings@ == old(self).embeddings@
                &&& final(self).dense@ == old(self).dense@
                &&& final(self).edges@ == old(self).edges@
                &&& final(self).settings@ == old(self).settings@
                &&& final(self).applied_migrations@ == old(self).applied_migrations@
            },
    {
        let now: String = now_rfc3339();
        self.update_note(id, title, content, now)
    }
}

} // verus!
