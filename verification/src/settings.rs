//! Persisted configuration: reading the known keys with defaults, and
//! validated updates. The similarity threshold is held in millionths and
//! stored as a plain decimal integer string.

use vstd::prelude::*;
use crate::chars::str_eq;
use crate::errors::SunderError;
use crate::numstr::{dec_digits, parse_u32, parse_u32_spec, render_u32};
use crate::store::{settings_wf, SettingRow, Store};

verus! {

/// The configuration the host renders.
pub struct Settings {
    pub watch_directory: Option<String>,
    pub similarity_threshold_micros: u32,
    pub debounce_ms: u32,
    pub theme: String,
}

/// A partial update; absent fields stay as they are.
pub struct SettingsPatch {
    pub similarity_threshold_micros: Option<u32>,
    pub debounce_ms: Option<u32>,
    pub theme: Option<String>,
}

/// The value stored under a key, if any; under `settings_wf` the row is
/// unique.
pub open spec fn setting_value(rows: Seq<SettingRow>, key: Seq<char>) -> Option<Seq<char>> {
    if exists|i: int| 0 <= i < rows.len() && rows[i].key@ == key {
        let i = choose|i: int| 0 <= i < rows.len() && rows[i].key@ == key;
        Some(rows[i].value@)
    } else {
        None
    }
}

/// The default similarity threshold, in millionths.
pub const DEFAULT_THRESHOLD_MICROS: u32 = 650000;

/// The default debounce, in milliseconds.
pub const DEFAULT_DEBOUNCE_MS: u32 = 300;

/// The threshold read from the rows, falling back to the default on an
/// absent or unparsable value.
pub open spec fn threshold_of(rows: Seq<SettingRow>) -> u32 {
    match setting_value(rows, "similarity_threshold"@) {
        Some(v) => match parse_u32_spec(v) {
            Some(m) => m,
            None => DEFAULT_THRESHOLD_MICROS,
        },
        None => DEFAULT_THRESHOLD_MICROS,
    }
}

pub open spec fn debounce_of(rows: Seq<SettingRow>) -> u32 {
    match setting_value(rows, "debounce_ms"@) {
        Some(v) => match parse_u32_spec(v) {
            Some(m) => m,
            None => DEFAULT_DEBOUNCE_MS,
        },
        None => DEFAULT_DEBOUNCE_MS,
    }
}

pub open spec fn theme_of(rows: Seq<SettingRow>) -> Seq<char> {
    match setting_value(rows, "theme"@) {
        Some(v) => v,
        None => "dark"@,
    }
}

pub open spec fn watch_directory_of(rows: Seq<SettingRow>) -> Option<Seq<char>> {
    match setting_value(rows, "watch_directory"@) {
        Some(v) => if v.len() == 0 {
            None
        } else {
            Some(v)
        },
        None => None,
    }
}

impl Store {
    /// Finds the position of the row with this key.
    pub fn find_setting_index(&self, key: &str) -> (r: Option<usize>)
        ensures
            match r {
                Some(i) => i < self.settings@.len() && self.settings@[i as int].key@ == key@,
                None => forall|k: int|
                    0 <= k < self.settings@.len() ==> (#[trigger] self.settings@[k]).key@ != key@,
            },
    {
        let mut i: usize = 0;
        while i < self.settings.len()
            invariant
                i <= self.settings@.len(),
                forall|k: int| 0 <= k < i ==> (#[trigger] self.settings@[k]).key@ != key@,
            decreases self.settings@.len() - i,
        {
            if str_eq(self.settings[i].key.as_str(), key) {
                return Some(i);
            }
            i = i + 1;
        }
        None
    }

    /// Reads the raw value stored under a key.
    pub fn get_setting(&self, key: &str) -> (r: Option<String>)
        requires
            settings_wf(self.settings@),
        ensures
            match r {
                Some(v) => setting_value(self.settings@, key@) == Some(v@),
                None => setting_value(self.settings@, key@) is None,
            },
    {
        let mut i: usize = 0;
        while i < self.settings.len()
            invariant
                i <= self.settings@.len(),
                settings_wf(self.settings@),
                forall|k: int| 0 <= k < i ==> self.settings@[k].key@ != key@,
            decreases self.settings@.len() - i,
        {
            if str_eq(self.settings[i].key.as_str(), key) {
                proof {
                    let w = choose|w: int|
                        0 <= w < self.settings@.len() && self.settings@[w].key@ == key@;
                    if w != i as int {
                        assert(self.settings@[w].key@ != self.settings@[i as int].key@);
                    }
                }
                return Some(self.settings[i].value.clone());
            }
            i = i + 1;
        }
        None
    }

    /// Writes a value under a key, replacing an existing row.
    pub fn set_setting(&mut self, key: &str, value: String)
        requires
            old(self).wf(),
        ensures
            final(self).wf(),
            setting_value(final(self).settings@, key@) == Some(value@),
            forall|k2: Seq<char>|
                k2 != key@ ==> #[trigger] setting_value(final(self).settings@, k2)
                    == setting_value(old(self).settings@, k2),
            final(self).notes@ == old(self).notes@,
            final(self).fts@ == old(self).fts@,
            final(self).embeddings@ == old(self).embeddings@,
            final(self).dense@ == old(self).dense@,
            final(self).edges@ == old(self).edges@,
            final(self).applied_migrations@ == old(self).applied_migrations@,
    {
        let found: Option<usize> = self.find_setting_index(key);
        let row = SettingRow { key: String::from_str(key), value };
        match found {
            Some(w) => {
                let _ = self.settings.remove(w);
                self.settings.insert(w, row);
                proof {
                    assert(self.settings@ =~= old(self).settings@.update(
                        w as int,
                        self.settings@[w as int],
                    ));
                    lemma_setting_frame_update(old(self).settings@, self.settings@, w as int, key@, value@);
                }
            },
            None => {
                self.settings.push(row);
                proof {
                    assert(self.settings@.drop_last() =~= old(self).settings@);
                    assert forall|a: int, b: int|
                        0 <= a < b < self.settings@.len() implies (#[trigger] self
                        .settings@[a]).key@ != (#[trigger] self.settings@[b]).key@ by {
                        if b == self.settings@.len() - 1 {
                            assert(self.settings@[a] == old(self).settings@[a]);
                        }
                    }
                    lemma_setting_frame_push(old(self).settings@, self.settings@, key@, value@);
                }
            },
        }
    }
}

/// Replacing the unique row of a key changes only that key's value.
proof fn lemma_setting_frame_update(
    pre: Seq<SettingRow>,
    post: Seq<SettingRow>,
    w: int,
    key: Seq<char>,
    value: Seq<char>,
)
    requires
        settings_wf(pre),
        0 <= w < pre.len(),
        pre[w].key@ == key,
        post.len() == pre.len(),
        forall|k: int| 0 <= k < pre.len() && k != w ==> #[trigger] post[k] == pre[k],
        post[w].key@ == key,
        post[w].value@ == value,
    ensures
        settings_wf(post),
        setting_value(post, key) == Some(value),
        forall|k2: Seq<char>|
            k2 != key ==> #[trigger] setting_value(post, k2) == setting_value(pre, k2),
{
    assert forall|a: int, b: int|
        0 <= a < b < post.len() implies (#[trigger] post[a]).key@
        != (#[trigger] post[b]).key@ by {
        if a != w && b != w {
            assert(post[a] == pre[a]);
            assert(post[b] == pre[b]);
        } else if a == w {
            assert(post[b] == pre[b]);
            assert(pre[w].key@ != pre[b].key@);
        } else {
            assert(post[a] == pre[a]);
            assert(pre[a].key@ != pre[w].key@);
        }
    }
    assert(setting_value(post, key) == Some(value)) by {
        assert(post[w].key@ == key);
        let c = choose|i: int| 0 <= i < post.len() && post[i].key@ == key;
        if c != w {
            assert(post[c].key@ != post[w].key@);
        }
    }
    assert forall|k2: Seq<char>| k2 != key implies #[trigger] setting_value(post, k2)
        == setting_value(pre, k2) by {
        if exists|i: int| 0 <= i < pre.len() && pre[i].key@ == k2 {
            let c = choose|i: int| 0 <= i < pre.len() && pre[i].key@ == k2;
            assert(c != w);
            assert(post[c] == pre[c]);
            assert(exists|i: int| 0 <= i < post.len() && post[i].key@ == k2);
            let c2 = choose|i: int| 0 <= i < post.len() && post[i].key@ == k2;
            if c2 != c {
                assert(post[c2].key@ != post[c].key@) by {
                    if c2 < c {
                    } else {
                    }
                }
            }
        } else {
            if exists|i: int| 0 <= i < post.len() && post[i].key@ == k2 {
                let c2 = choose|i: int| 0 <= i < post.len() && post[i].key@ == k2;
                assert(c2 != w);
                assert(post[c2] == pre[c2]);
                assert(false);
            }
        }
    }
}

/// Appending a row with a fresh key changes only that key's value.
proof fn lemma_setting_frame_push(
    pre: Seq<SettingRow>,
    post: Seq<SettingRow>,
    key: Seq<char>,
    value: Seq<char>,
)
    requires
        settings_wf(pre),
        settings_wf(post),
        forall|k: int| 0 <= k < pre.len() ==> (#[trigger] pre[k]).key@ != key,
        post.len() == pre.len() + 1,
        forall|k: int| 0 <= k < pre.len() ==> #[trigger] post[k] == pre[k],
        post[post.len() - 1].key@ == key,
        post[post.len() - 1].value@ == value,
    ensures
        setting_value(post, key) == Some(value),
        forall|k2: Seq<char>|
            k2 != key ==> #[trigger] setting_value(post, k2) == setting_value(pre, k2),
{
    let w = post.len() - 1;
    assert(setting_value(post, key) == Some(value)) by {
        assert(post[w].key@ == key);
        let c = choose|i: int| 0 <= i < post.len() && post[i].key@ == key;
        if c != w {
            assert(post[c] == pre[c]);
        }
    }
    assert forall|k2: Seq<char>| k2 != key implies #[trigger] setting_value(post, k2)
        == setting_value(pre, k2) by {
        if exists|i: int| 0 <= i < pre.len() && pre[i].key@ == k2 {
            let c = choose|i: int| 0 <= i < pre.len() && pre[i].key@ == k2;
            assert(post[c] == pre[c]);
            assert(exists|i: int| 0 <= i < post.len() && post[i].key@ == k2);
            let c2 = choose|i: int| 0 <= i < post.len() && post[i].key@ == k2;
            if c2 != c {
                assert(post[c2].key@ != post[c].key@);
            }
        } else {
            if exists|i: int| 0 <= i < post.len() && post[i].key@ == k2 {
                let c2 = choose|i: int| 0 <= i < post.len() && post[i].key@ == k2;
                if c2 < w {
                    assert(post[c2] == pre[c2]);
                    assert(false);
                } else {
                    assert(post[c2].key@ == key);
                    assert(false);
                }
            }
        }
    }
}

impl Store {
    /// Reads the settings, substituting the documented default for any
    /// absent or unparsable value: the panel must always render.
    pub fn get_settings(&self) -> (r: Settings)
        requires
            self.wf(),
        ensures
            r.similarity_threshold_micros == threshold_of(self.settings@),
            r.debounce_ms == debounce_of(self.settings@),
            r.theme@ == theme_of(self.settings@),
            crate::store::opt_view(r.watch_directory) == watch_directory_of(self.settings@),
    {
        let threshold: u32 = match self.get_setting("similarity_threshold") {
            Some(v) => match parse_u32(v.as_str()) {
                Some(m) => m,
                None => DEFAULT_THRESHOLD_MICROS,
            },
            None => DEFAULT_THRESHOLD_MICROS,
        };
        let debounce: u32 = match self.get_setting("debounce_ms") {
            Some(v) => match parse_u32(v.as_str()) {
                Some(m) => m,
                None => DEFAULT_DEBOUNCE_MS,
            },
            None => DEFAULT_DEBOUNCE_MS,
        };
        let theme: String = match self.get_setting("theme") {
            Some(v) => v,
            None => String::from_str("dark"),
        };
        let watch_directory: Option<String> = match self.get_setting("watch_directory") {
            Some(v) => {
                if v.as_str().unicode_len() == 0 {
                    None
                } else {
                    Some(v)
                }
            },
            None => None,
        };
        Settings { watch_directory, similarity_threshold_micros: threshold, debounce_ms: debounce, theme }
    }

    /// Validates every supplied field before any write, then upserts one
    /// row per supplied field. The watch directory is not writable here.
    pub fn update_settings(&mut self, patch: SettingsPatch) -> (r: Result<(), SunderError>)
        requires
            old(self).wf(),
        ensures
            final(self).wf(),
            r is Ok <==> ((patch.similarity_threshold_micros matches Some(m) ==> m <= 1000000)
                && (patch.debounce_ms matches Some(d) ==> 100 <= d <= 2000)
                && (patch.theme matches Some(t) ==> (t@ == "dark"@ || t@ == "light"@))),
            r matches Err(e) ==> *final(self) == *old(self) && e is InvalidValue,
            r is Ok ==> {
                &&& (patch.similarity_threshold_micros matches Some(m) ==> setting_value(
                    final(self).settings@,
                    "similarity_threshold"@,
                ) == Some(dec_digits(m as int)))
                &&& (patch.similarity_threshold_micros is None ==> setting_value(
                    final(self).settings@,
                    "similarity_threshold"@,
                ) == setting_value(old(self).settings@, "similarity_threshold"@))
                &&& (patch.debounce_ms matches Some(d) ==> setting_value(
                    final(self).settings@,
                    "debounce_ms"@,
                ) == Some(dec_digits(d as int)))
                &&& (patch.debounce_ms is None ==> setting_value(
                    final(self).settings@,
                    "debounce_ms"@,
                ) == setting_value(old(self).settings@, "debounce_ms"@))
                &&& (patch.theme matches Some(t) ==> setting_value(final(self).settings@, "theme"@)
                    == Some(t@))
                &&& (patch.theme is None ==> setting_value(final(self).settings@, "theme"@)
                    == setting_value(old(self).settings@, "theme"@))
                &&& forall|k2: Seq<char>|
                    k2 != "similarity_threshold"@ && k2 != "debounce_ms"@ && k2 != "theme"@
                        ==> #[trigger] setting_value(final(self).settings@, k2) == setting_value(
                        old(self).settings@,
                        k2,
                    )
                &&& final(self).notes@ == old(self).notes@
                &&& final(self).fts@ == old(self).fts@
                &&& final(self).embeddings@ == old(self).embeddings@
                &&& final(self).dense@ == old(self).dense@
                &&& final(self).edges@ == old(self).edges@
                &&& final(self).applied_migrations@ == old(self).applied_migrations@
            },
    {
        // validate everything before any write
        match &patch.similarity_threshold_micros {
            Some(m) => {
                if *m > 1000000 {
                    return Err(
                        SunderError::InvalidValue(
                            String::from_str("similarity_threshold must be between 0.0 and 1.0"),
                        ),
                    );
                }
            },
            None => {},
        }
        match &patch.debounce_ms {
            Some(d) => {
                if *d < 100 || *d > 2000 {
                    return Err(
                        SunderError::InvalidValue(
                            String::from_str("debounce_ms must be between 100 and 2000"),
                        ),
                    );
                }
            },
            None => {},
        }
        match &patch.theme {
            Some(t) => {
                if !(str_eq(t.as_str(), "dark") || str_eq(t.as_str(), "light")) {
                    return Err(
                        SunderError::InvalidValue(
                            String::from_str("theme must be 'dark' or 'light'"),
                        ),
                    );
                }
            },
            None => {},
        }
        let ghost s0 = self.settings@;
        match &patch.similarity_threshold_micros {
            Some(m) => {
                self.set_setting("similarity_threshold", render_u32(*m));
            },
            None => {},
        }
        let ghost s1 = self.settings@;
        match &patch.debounce_ms {
            Some(d) => {
                self.set_setting("debounce_ms", render_u32(*d));
            },
            None => {},
        }
        let ghost s2 = self.settings@;
        match patch.theme {
            Some(t) => {
                self.set_setting("theme", t);
            },
            None => {},
        }
        proof {
            reveal_strlit("similarity_threshold");
            reveal_strlit("debounce_ms");
            reveal_strlit("theme");
            assert("similarity_threshold"@.len() == 20);
            assert("debounce_ms"@.len() == 11);
            assert("theme"@.len() == 5);
            assert("similarity_threshold"@ != "debounce_ms"@);
            assert("similarity_threshold"@ != "theme"@);
            assert("debounce_ms"@ != "theme"@);
        }
        Ok(())
    }
}

} // verus!
