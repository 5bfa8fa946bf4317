//! The versioned migration protocol: an ordered set of schema versions,
//! each applied at most once, tracked in the store. The last version
//! seeds the default settings. Running the migrations on an up-to-date
//! store applies nothing.

use vstd::prelude::*;
use crate::errors::SunderError;
use crate::settings::setting_value;
use crate::store::Store;

verus! {

/// The highest schema version this crate knows.
pub const MIGRATION_COUNT: u32 = 5;

pub open spec fn applied_has(applied: Seq<u32>, v: u32) -> bool {
    exists|i: int| 0 <= i < applied.len() && applied[i] == v
}

/// The versions in `1..=upto` that are not applied yet, ascending.
pub open spec fn missing_list(applied: Seq<u32>, upto: int) -> Seq<u32>
    decreases upto,
{
    if upto <= 0 {
        Seq::empty()
    } else {
        missing_list(applied, upto - 1) + (if applied_has(applied, upto as u32) {
            Seq::empty()
        } else {
            seq![upto as u32]
        })
    }
}

impl Store {
    fn has_migration(&self, v: u32) -> (r: bool)
        ensures
            r == applied_has(self.applied_migrations@, v),
    {
        let mut i: usize = 0;
        while i < self.applied_migrations.len()
            invariant
                i <= self.applied_migrations@.len(),
                forall|k: int| 0 <= k < i ==> self.applied_migrations@[k] != v,
            decreases self.applied_migrations@.len() - i,
        {
            if self.applied_migrations[i] == v {
                return true;
            }
            i = i + 1;
        }
        false
    }

    /// Seeds a default value for a key only where none is stored.
    fn set_default(&mut self, key: &str, value: &str)
        requires
            old(self).wf(),
        ensures
            final(self).wf(),
            setting_value(final(self).settings@, key@) == (match setting_value(
                old(self).settings@,
                key@,
            ) {
                Some(v) => Some(v),
                None => Some(value@),
            }),
            forall|k2: Seq<char>|
                k2 != key@ ==> #[trigger] setting_value(final(self).settings@, k2)
                    == setting_value(old(self).settings@, k2),
            final(self).notes@ == old(self).notes@,
            final(self).fts@ == old(self).fts@,
            final(self).embeddings@ == old(self).embeddings@,
            final(self).dense@ == old(self).dense@,
            final(self).edges@ == old(self).edges@,
            final(self).applied_migrations@ == old(self).applied_migrations@,
    {
        match self.get_setting(key) {
            Some(_) => {},
            None => {
                self.set_setting(key, String::from_str(value));
            },
        }
    }

    /// Applies every missing schema version in order and returns how
    /// many were applied; on an already-migrated store this applies
    /// nothing and the store is left untouched.
    pub fn run_migrations(&mut self) -> (r: Result<u32, SunderError>)
        requires
            old(self).wf(),
        ensures
            final(self).wf(),
            r is Ok,
            r matches Ok(c) ==> c == missing_list(
                old(self).applied_migrations@,
                MIGRATION_COUNT as int,
            ).len(),
            final(self).applied_migrations@ == old(self).applied_migrations@ + missing_list(
                old(self).applied_migrations@,
                MIGRATION_COUNT as int,
            ),
            missing_list(old(self).applied_migrations@, MIGRATION_COUNT as int).len() == 0
                ==> *final(self) == *old(self),
            applied_has(old(self).applied_migrations@, MIGRATION_COUNT) ==> final(self).settings@
                == old(self).settings@,
            !applied_has(old(self).applied_migrations@, MIGRATION_COUNT) ==> {
                &&& setting_value(final(self).settings@, "similarity_threshold"@) == (
                match setting_value(old(self).settings@, "similarity_threshold"@) {
                    Some(v) => Some(v),
                    None => Some("650000"@),
                })
                &&& setting_value(final(self).settings@, "debounce_ms"@) == (match setting_value(
                    old(self).settings@,
                    "debounce_ms"@,
                ) {
                    Some(v) => Some(v),
                    None => Some("300"@),
                })
                &&& setting_value(final(self).settings@, "theme"@) == (match setting_value(
                    old(self).settings@,
                    "theme"@,
                ) {
                    Some(v) => Some(v),
                    None => Some("dark"@),
                })
                &&& forall|k2: Seq<char>|
                    k2 != "similarity_threshold"@ && k2 != "debounce_ms"@ && k2 != "theme"@
                        ==> #[trigger] setting_value(final(self).settings@, k2) == setting_value(
                        old(self).settings@,
                        k2,
                    )
            },
            final(self).notes@ == old(self).notes@,
            final(self).fts@ == old(self).fts@,
            final(self).embeddings@ == old(self).embeddings@,
            final(self).dense@ == old(self).dense@,
            final(self).edges@ == old(self).edges@,
    {
        let ghost oa = old(self).applied_migrations@;
        let mut count: u32 = 0;
        if !self.has_migration(1) {
            self.applied_migrations.push(1);
            count = count + 1;
        }
        if !self.has_migration(2) {
            proof {
                lemma_applied_grows(oa, self.applied_migrations@, 2);
            }
            self.applied_migrations.push(2);
            count = count + 1;
        } else {
            proof {
                lemma_applied_grows(oa, self.applied_migrations@, 2);
            }
        }
        if !self.has_migration(3) {
            proof {
                lemma_applied_grows(oa, self.applied_migrations@, 3);
            }
            self.applied_migrations.push(3);
            count = count + 1;
        } else {
            proof {
                lemma_applied_grows(oa, self.applied_migrations@, 3);
            }
        }
        if !self.has_migration(4) {
            proof {
                lemma_applied_grows(oa, self.applied_migrations@, 4);
            }
            self.applied_migrations.push(4);
            count = count + 1;
        } else {
            proof {
                lemma_applied_grows(oa, self.applied_migrations@, 4);
            }
        }
        if !self.has_migration(5) {
            proof {
                lemma_applied_grows(oa, self.applied_migrations@, 5);
            }
            self.set_default("similarity_threshold", "650000");
            self.set_default("debounce_ms", "300");
            self.set_default("theme", "dark");
            self.applied_migrations.push(5);
            count = count + 1;
            proof {
                reveal_strlit("similarity_threshold");
                reveal_strlit("debounce_ms");
                reveal_strlit("theme");
                assert("similarity_threshold"@.len() == 20);
                assert("debounce_ms"@.len() == 11);
                assert("theme"@.len() == 5);
            }
        } else {
            proof {
                lemma_applied_grows(oa, self.applied_migrations@, 5);
            }
        }
        proof {
            lemma_missing_unrolled(oa);
            assert(self.applied_migrations@ =~= oa + missing_list(oa, MIGRATION_COUNT as int));
        }
        Ok(count)
    }
}

/// Pushing versions above `v` does not change whether `v` is applied.
proof fn lemma_applied_grows(pre: Seq<u32>, cur: Seq<u32>, v: u32)
    requires
        pre.len() <= cur.len(),
        forall|k: int| 0 <= k < pre.len() ==> #[trigger] cur[k] == pre[k],
        forall|k: int| pre.len() <= k < cur.len() ==> #[trigger] cur[k] < v,
    ensures
        applied_has(cur, v) == applied_has(pre, v),
{
    if applied_has(pre, v) {
        let w = choose|i: int| 0 <= i < pre.len() && pre[i] == v;
        assert(cur[w] == v);
    }
    if applied_has(cur, v) {
        let w = choose|i: int| 0 <= i < cur.len() && cur[i] == v;
        assert(w < pre.len());
        assert(pre[w] == v);
    }
}

/// The missing list over the five versions, spelled out.
proof fn lemma_missing_unrolled(applied: Seq<u32>)
    ensures
        missing_list(applied, 5) == (if applied_has(applied, 1) {
            Seq::<u32>::empty()
        } else {
            seq![1u32]
        }) + (if applied_has(applied, 2) {
            Seq::<u32>::empty()
        } else {
            seq![2u32]
        }) + (if applied_has(applied, 3) {
            Seq::<u32>::empty()
        } else {
            seq![3u32]
        }) + (if applied_has(applied, 4) {
            Seq::<u32>::empty()
        } else {
            seq![4u32]
        }) + (if applied_has(applied, 5) {
            Seq::<u32>::empty()
        } else {
            seq![5u32]
        }),
{
    reveal_with_fuel(missing_list, 6);
    assert(missing_list(applied, 0) =~= Seq::<u32>::empty());
    assert(Seq::<u32>::empty() + (if applied_has(applied, 1) {
        Seq::<u32>::empty()
    } else {
        seq![1u32]
    }) =~= (if applied_has(applied, 1) {
        Seq::<u32>::empty()
    } else {
        seq![1u32]
    }));
}

} // verus!
