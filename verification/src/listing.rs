//! Listing notes: a sorted window over the notes table with display
//! snippets and a total count. The sort key comes as a plain string;
//! an unknown key falls back to the default ordering. Notes with equal
//! keys may come in any order, as they may from an embedded database.

use vstd::prelude::*;
use crate::chars::{lex_le, str_eq, str_lt};
use crate::errors::SunderError;
use crate::snippet::{make_snippet, snippet_spec};
use crate::store::{clone_note, Note, Store};

verus! {

/// One row of the note list.
pub struct NoteListItem {
    pub id: String,
    pub title: String,
    pub snippet: String,
    pub updated_at: String,
}

/// A page of the note list with the total count.
pub struct NoteList {
    pub notes: Vec<NoteListItem>,
    pub total: u32,
}

/// The recognized orderings.
#[derive(Debug, Clone, Copy, PartialEq, Eq, Structural)]
pub enum SortKey {
    UpdatedDesc,
    CreatedDesc,
    TitleAsc,
}

/// Which ordering a sort-key string selects; anything unrecognized
/// falls back to most-recently-updated first.
pub open spec fn key_of(s: Seq<char>) -> SortKey {
    if s == "created_at"@ {
        SortKey::CreatedDesc
    } else if s == "title"@ {
        SortKey::TitleAsc
    } else {
        SortKey::UpdatedDesc
    }
}

/// The ordering itself.
pub open spec fn note_leq(k: SortKey, a: Note, b: Note) -> bool {
    match k {
        SortKey::UpdatedDesc => lex_le(b.updated_at@, a.updated_at@),
        SortKey::CreatedDesc => lex_le(b.created_at@, a.created_at@),
        SortKey::TitleAsc => lex_le(a.title@, b.title@),
    }
}

/// How one list row reflects a note.
pub open spec fn item_matches(it: NoteListItem, n: Note) -> bool {
    &&& it.id@ == n.id@
    &&& it.title@ == n.title@
    &&& it.snippet@ == snippet_spec(n.content@)
    &&& it.updated_at@ == n.updated_at@
}

fn note_leq_exec(k: SortKey, a: &Note, b: &Note) -> (r: bool)
    ensures
        r == note_leq(k, *a, *b),
{
    match k {
        SortKey::UpdatedDesc => str_le_l(b.updated_at.as_str(), a.updated_at.as_str()),
        SortKey::CreatedDesc => str_le_l(b.created_at.as_str(), a.created_at.as_str()),
        SortKey::TitleAsc => str_le_l(a.title.as_str(), b.title.as_str()),
    }
}

fn str_le_l(a: &str, b: &str) -> (r: bool)
    ensures
        r == lex_le(a@, b@),
{
    str_lt(a, b) || str_eq(a, b)
}

proof fn lemma_note_leq_total(k: SortKey, a: Note, b: Note)
    ensures
        note_leq(k, a, b) || note_leq(k, b, a),
{
    match k {
        SortKey::UpdatedDesc => crate::chars::lemma_lex_total(a.updated_at@, b.updated_at@),
        SortKey::CreatedDesc => crate::chars::lemma_lex_total(a.created_at@, b.created_at@),
        SortKey::TitleAsc => crate::chars::lemma_lex_total(a.title@, b.title@),
    }
}

proof fn lemma_note_leq_trans(k: SortKey, a: Note, b: Note, c: Note)
    requires
        note_leq(k, a, b),
        note_leq(k, b, c),
    ensures
        note_leq(k, a, c),
{
    match k {
        SortKey::UpdatedDesc => crate::order::lemma_lex_le_trans(
            c.updated_at@,
            b.updated_at@,
            a.updated_at@,
        ),
        SortKey::CreatedDesc => crate::order::lemma_lex_le_trans(
            c.created_at@,
            b.created_at@,
            a.created_at@,
        ),
        SortKey::TitleAsc => crate::order::lemma_lex_le_trans(a.title@, b.title@, c.title@),
    }
}

impl Store {
    /// Lists notes: sorted by the selected key, windowed to
    /// `offset..offset+limit`, with display snippets and the total
    /// count.
    #[verifier::rlimit(60)]
    pub fn list_notes(&self, offset: u32, limit: u32, sort_by: &str) -> (r: Result<
        NoteList,
        SunderError,
    >)
        requires
            self.wf(),
        ensures
            r is Ok,
            r matches Ok(nl) ==> ({
                let key = key_of(sort_by@);
                &&& nl.total == self.notes@.len()
                &&& exists|sorted: Seq<Note>|
                    {
                        &&& #[trigger] sorted.to_multiset() == self.notes@.to_multiset()
                        &&& sorted.len() == self.notes@.len()
                        &&& forall|i: int, j: int|
                            0 <= i < j < sorted.len() ==> note_leq(
                                key,
                                #[trigger] sorted[i],
                                #[trigger] sorted[j],
                            )
                        &&& nl.notes@.len() == ({
                            let start = if offset as int <= sorted.len() {
                                offset as int
                            } else {
                                sorted.len() as int
                            };
                            let end = if offset as int + limit as int <= sorted.len() {
                                offset as int + limit as int
                            } else {
                                sorted.len() as int
                            };
                            end - start
                        })
                        &&& forall|j: int|
                            0 <= j < nl.notes@.len() ==> item_matches(
                                #[trigger] nl.notes@[j],
                                sorted[offset as int + j],
                            )
                    }
            }),
    {
        broadcast use vstd::seq_lib::group_to_multiset_ensures;

        let key: SortKey = if str_eq(sort_by, "created_at") {
            SortKey::CreatedDesc
        } else if str_eq(sort_by, "title") {
            SortKey::TitleAsc
        } else {
            SortKey::UpdatedDesc
        };
        proof {
            assert(key == key_of(sort_by@));
        }
        // sort a copy
        let mut sorted: Vec<Note> = Vec::new();
        let mut i: usize = 0;
        proof {
            assert(self.notes@.take(0) =~= Seq::<Note>::empty());
            assert(sorted@.to_multiset() =~= self.notes@.take(0).to_multiset());
        }
        while i < self.notes.len()
            invariant
                self.wf(),
                i <= self.notes@.len(),
                key == key_of(sort_by@),
                sorted@.to_multiset() == self.notes@.take(i as int).to_multiset(),
                sorted@.len() == i,
                forall|a: int, b: int|
                    0 <= a < b < sorted@.len() ==> note_leq(
                        key,
                        #[trigger] sorted@[a],
                        #[trigger] sorted@[b],
                    ),
            decreases self.notes@.len() - i,
        {
            let x: Note = clone_note(&self.notes[i]);
            let mut p: usize = 0;
            while p < sorted.len() && note_leq_exec(key, &sorted[p], &x)
                invariant
                    p <= sorted@.len(),
                    forall|q: int| 0 <= q < p ==> note_leq(key, #[trigger] sorted@[q], x),
                decreases sorted@.len() - p,
            {
                p = p + 1;
            }
            let ghost old_sorted = sorted@;
            sorted.insert(p, x);
            proof {
                assert(x == self.notes@[i as int]);
                crate::order::lemma_to_multiset_insert(old_sorted, p as int, x);
                assert(self.notes@.take(i + 1) =~= self.notes@.take(i as int).push(
                    self.notes@[i as int],
                ));
                self.notes@.take(i as int).to_multiset_ensures();
                assert(self.notes@.take(i as int).push(self.notes@[i as int]).to_multiset()
                    =~= self.notes@.take(i as int).to_multiset().insert(self.notes@[i as int]));
                assert(self.notes@.take(i + 1).to_multiset() =~= self.notes@.take(
                    i as int,
                ).to_multiset().insert(self.notes@[i as int]));
                assert forall|a: int, b: int|
                    0 <= a < b < sorted@.len() implies note_leq(
                    key,
                    #[trigger] sorted@[a],
                    #[trigger] sorted@[b],
                ) by {
                    if a < p && b > p {
                        assert(sorted@[a] == old_sorted[a]);
                        assert(sorted@[b] == old_sorted[b - 1]);
                    } else if a == p && b > p {
                        assert(sorted@[b] == old_sorted[b - 1]);
                        if p < old_sorted.len() {
                            assert(!note_leq(key, old_sorted[p as int], x));
                            lemma_note_leq_total(key, old_sorted[p as int], x);
                            if b - 1 > p {
                                lemma_note_leq_trans(
                                    key,
                                    x,
                                    old_sorted[p as int],
                                    old_sorted[b - 1],
                                );
                            }
                        }
                    } else if a < p && b == p {
                        assert(sorted@[a] == old_sorted[a]);
                    } else if b < p {
                        assert(sorted@[a] == old_sorted[a]);
                        assert(sorted@[b] == old_sorted[b]);
                    }
                }
            }
            i = i + 1;
        }
        proof {
            assert(self.notes@.take(self.notes@.len() as int) =~= self.notes@);
        }
        // window
        let n: usize = sorted.len();
        let off: usize = offset as usize;
        let lim: usize = limit as usize;
        let start: usize = if off <= n {
            off
        } else {
            n
        };
        let end: usize = if n - start >= lim {
            start + lim
        } else {
            n
        };
        let mut items: Vec<NoteListItem> = Vec::new();
        let mut t: usize = start;
        while t < end
            invariant
                start <= t <= end,
                end <= sorted@.len(),
                start == (if offset as int <= sorted@.len() {
                    offset as int
                } else {
                    sorted@.len() as int
                }),
                items@.len() == t - start,
                forall|j: int|
                    0 <= j < items@.len() ==> item_matches(
                        #[trigger] items@[j],
                        sorted@[start + j],
                    ),
            decreases end - t,
        {
            let nref = &sorted[t];
            items.push(
                NoteListItem {
                    id: nref.id.clone(),
                    title: nref.title.clone(),
                    snippet: make_snippet(nref.content.as_str()),
                    updated_at: nref.updated_at.clone(),
                },
            );
            t = t + 1;
        }
        let total: u32 = n as u32;
        Ok(NoteList { notes: items, total })
    }
}

} // verus!
