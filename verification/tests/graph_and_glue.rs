//! Clustering and the graph view, the latent-link cache, settings,
//! listing, path filtering and front matter.

use sunder::cluster::union_find_clusters;
use sunder::codec::embedding_to_blob;
use sunder::errors::SunderError;
use sunder::embed::chunk_ranges;
use sunder::links::{filter_links, LatentLink, LinkCache};
use sunder::settings::SettingsPatch;
use sunder::store::Store;
use sunder::watch::{extract_front_matter, is_markdown_file, is_safe_path, walk_md_files};

fn fresh_store() -> Store {
    let mut s = Store::new();
    s.run_migrations().unwrap();
    s
}

fn blob(seed: u32) -> Vec<u8> {
    let mut words: Vec<u32> = Vec::new();
    let mut i: u32 = 0;
    while i < 384 {
        words.push(seed.wrapping_add(i));
        i += 1;
    }
    embedding_to_blob(&words)
}

fn link(id: &str, sim: i64) -> LatentLink {
    LatentLink {
        note_id: String::from(id),
        title: String::from(id),
        similarity_micros: sim,
        snippet: String::new(),
    }
}

#[test]
fn union_find_groups_connected_nodes() {
    let edges = vec![(0usize, 1usize), (2usize, 3usize)];
    let c = union_find_clusters(4, &edges);
    assert_eq!(c, vec![0, 0, 1, 1]);
    // a shared endpoint merges the classes
    let edges = vec![(0usize, 1usize), (1usize, 2usize)];
    let c = union_find_clusters(3, &edges);
    assert_eq!(c, vec![0, 0, 0]);
    // an isolated node keeps a cluster of its own
    let edges = vec![(0usize, 1usize)];
    let c = union_find_clusters(3, &edges);
    assert_eq!(c, vec![0, 0, 1]);
    // no edges: one cluster per node, in order
    let c = union_find_clusters(3, &Vec::new());
    assert_eq!(c, vec![0, 1, 2]);
    // an out-of-range endpoint is ignored
    let edges = vec![(0usize, 9usize)];
    let c = union_find_clusters(2, &edges);
    assert_eq!(c, vec![0, 1]);
}

#[test]
fn graph_view_filters_edges_and_clusters() {
    let mut s = fresh_store();
    for (id, title) in [("a", "First"), ("b", "Second"), ("c", "Third")] {
        s.create_note(title, String::from("note body text"), None, String::from(id), String::from("t"))
            .unwrap();
        s.index_note(id, blob(1), String::from("t")).unwrap();
    }
    // pairs in table order: (a,b), (a,c), (b,c)
    let sims = vec![900000i64, 100000, 150000];
    let count = s.rebuild_full_cache(&sims, "t").unwrap();
    assert_eq!(count, 3);
    let g = s.get_graph(None, 300000);
    assert_eq!(g.nodes.len(), 3);
    assert_eq!(g.edges.len(), 1);
    assert_eq!(g.edges[0].source, "a");
    assert_eq!(g.edges[0].target, "b");
    assert_eq!(g.edges[0].similarity_micros, 900000);
    let ca = g.nodes[0].cluster;
    let cb = g.nodes[1].cluster;
    let cc = g.nodes[2].cluster;
    assert_eq!(ca, cb);
    assert_ne!(ca, cc);
    assert_eq!(ca, 0);
    assert_eq!(cc, 1);
}

#[test]
fn full_rebuild_writes_one_row_per_pair() {
    let mut s = fresh_store();
    for id in ["a", "b", "c", "d"] {
        s.create_note("T", String::from("note body text"), None, String::from(id), String::from("t"))
            .unwrap();
        s.index_note(id, blob(3), String::from("t")).unwrap();
    }
    // four embedded notes make six unordered pairs
    let sims = vec![1i64, 2, 3, 4, 5, 6];
    let count = s.rebuild_full_cache(&sims, "t").unwrap();
    assert_eq!(count, 6);
    assert_eq!(s.edges.len(), 6);
    // every row is canonical and between existing notes
    for e in &s.edges {
        assert!(e.note_id_a < e.note_id_b);
        assert!(s.notes.iter().any(|n| n.id == e.note_id_a));
        assert!(s.notes.iter().any(|n| n.id == e.note_id_b));
    }
}

#[test]
fn rebuild_for_note_replaces_its_rows() {
    let mut s = fresh_store();
    for id in ["a", "b", "c"] {
        s.create_note("T", String::from("note body text"), None, String::from(id), String::from("t"))
            .unwrap();
        s.index_note(id, blob(7), String::from("t")).unwrap();
    }
    let sims = vec![111111i64, 222222, 333333];
    s.rebuild_full_cache(&sims, "t").unwrap();
    assert_eq!(s.edges.len(), 3);
    // recompute b's row and column only
    let sims_b = vec![400000i64, 500000];
    s.rebuild_cache_for_note("b", &sims_b, "t2").unwrap();
    assert_eq!(s.edges.len(), 3);
    let ab = s.edges.iter().find(|e| e.note_id_a == "a" && e.note_id_b == "b").unwrap();
    assert_eq!(ab.similarity_micros, 400000);
    assert_eq!(ab.updated_at, "t2");
    let bc = s.edges.iter().find(|e| e.note_id_a == "b" && e.note_id_b == "c").unwrap();
    assert_eq!(bc.similarity_micros, 500000);
    let ac = s.edges.iter().find(|e| e.note_id_a == "a" && e.note_id_b == "c").unwrap();
    assert_eq!(ac.similarity_micros, 222222);
    // a note without an embedding leaves everything untouched
    s.create_note("D", String::from("note body text"), None, String::from("d"), String::from("t"))
        .unwrap();
    s.rebuild_cache_for_note("d", &Vec::new(), "t3").unwrap();
    assert_eq!(s.edges.len(), 3);
}

#[test]
fn latent_link_cache_round_trip() {
    let mut cache = LinkCache::new();
    let content = "several words of note content";
    // a miss first
    assert!(cache.lookup(content, None, 0, 10).is_none());
    let candidates = vec![link("a", 900000), link("b", 500000), link("c", 200000)];
    let first = cache.store(content, candidates, None, 300000, 10);
    assert_eq!(first.len(), 2);
    assert_eq!(first[0].note_id, "a");
    assert_eq!(first[1].note_id, "b");
    // a repeat call answers from the cache in the same order
    let hit = cache.lookup(content, None, 300000, 10).unwrap();
    assert_eq!(hit.len(), 2);
    assert_eq!(hit[0].note_id, "a");
    assert_eq!(hit[1].note_id, "b");
    // per-call filters apply over the same cached list
    let tighter = cache.lookup(content, Some("a"), 300000, 10).unwrap();
    assert_eq!(tighter.len(), 1);
    assert_eq!(tighter[0].note_id, "b");
    let capped = cache.lookup(content, None, 0, 1).unwrap();
    assert_eq!(capped.len(), 1);
    assert_eq!(capped[0].note_id, "a");
}

#[test]
fn latent_links_skip_tiny_content() {
    let mut cache = LinkCache::new();
    let r = cache.lookup("two words", None, 0, 10).unwrap();
    assert_eq!(r.len(), 0);
}

#[test]
fn filter_links_applies_all_filters() {
    let links = vec![link("a", 900000), link("b", 400000), link("c", 350000)];
    let all = filter_links(&links, None, 0, 10);
    assert_eq!(all.len(), 3);
    let thresholded = filter_links(&links, None, 380000, 10);
    assert_eq!(thresholded.len(), 2);
    let excluded = filter_links(&links, Some("a"), 0, 10);
    assert_eq!(excluded.len(), 2);
    assert_eq!(excluded[0].note_id, "b");
    let limited = filter_links(&links, None, 0, 2);
    assert_eq!(limited.len(), 2);
}

#[test]
fn settings_defaults_and_updates() {
    let mut s = fresh_store();
    let cfg = s.get_settings();
    assert_eq!(cfg.similarity_threshold_micros, 650000);
    assert_eq!(cfg.debounce_ms, 300);
    assert_eq!(cfg.theme, "dark");
    assert!(cfg.watch_directory.is_none());

    s.update_settings(SettingsPatch {
        similarity_threshold_micros: Some(420000),
        debounce_ms: Some(1500),
        theme: Some(String::from("light")),
    })
    .unwrap();
    let cfg = s.get_settings();
    assert_eq!(cfg.similarity_threshold_micros, 420000);
    assert_eq!(cfg.debounce_ms, 1500);
    assert_eq!(cfg.theme, "light");

    s.set_setting("watch_directory", String::from("/notes"));
    let cfg = s.get_settings();
    assert_eq!(cfg.watch_directory.as_deref(), Some("/notes"));
}

#[test]
fn settings_validation_rejects_out_of_range() {
    let mut s = fresh_store();
    let r = s.update_settings(SettingsPatch {
        similarity_threshold_micros: Some(1000001),
        debounce_ms: None,
        theme: None,
    });
    assert!(matches!(r, Err(SunderError::InvalidValue(_))));
    let r = s.update_settings(SettingsPatch {
        similarity_threshold_micros: None,
        debounce_ms: Some(99),
        theme: None,
    });
    assert!(matches!(r, Err(SunderError::InvalidValue(_))));
    let r = s.update_settings(SettingsPatch {
        similarity_threshold_micros: None,
        debounce_ms: Some(2001),
        theme: None,
    });
    assert!(matches!(r, Err(SunderError::InvalidValue(_))));
    let r = s.update_settings(SettingsPatch {
        similarity_threshold_micros: None,
        debounce_ms: None,
        theme: Some(String::from("sepia")),
    });
    assert!(matches!(r, Err(SunderError::InvalidValue(_))));
    // a rejected patch writes nothing, even when another field was valid
    let r = s.update_settings(SettingsPatch {
        similarity_threshold_micros: Some(100000),
        debounce_ms: Some(5000),
        theme: None,
    });
    assert!(r.is_err());
    assert_eq!(s.get_settings().similarity_threshold_micros, 650000);
}

#[test]
fn listing_sorts_and_windows() {
    let mut s = fresh_store();
    s.create_note("Cherry", String::from("cc"), None, String::from("1"), String::from("2024-03"))
        .unwrap();
    s.create_note("Apple", String::from("aa"), None, String::from("2"), String::from("2024-01"))
        .unwrap();
    s.create_note("Banana", String::from("bb"), None, String::from("3"), String::from("2024-02"))
        .unwrap();
    let by_title = s.list_notes(0, 10, "title").unwrap();
    assert_eq!(by_title.total, 3);
    let titles: Vec<&str> = by_title.notes.iter().map(|n| n.title.as_str()).collect();
    assert_eq!(titles, vec!["Apple", "Banana", "Cherry"]);
    // the default sorts by update time, newest first
    let recent = s.list_notes(0, 10, "whatever").unwrap();
    let titles: Vec<&str> = recent.notes.iter().map(|n| n.title.as_str()).collect();
    assert_eq!(titles, vec!["Cherry", "Banana", "Apple"]);
    // windowing
    let page = s.list_notes(1, 1, "title").unwrap();
    assert_eq!(page.notes.len(), 1);
    assert_eq!(page.notes[0].title, "Banana");
    let past_end = s.list_notes(10, 5, "title").unwrap();
    assert_eq!(past_end.notes.len(), 0);
    assert_eq!(past_end.total, 3);
}

#[test]
fn markdown_and_path_filters() {
    assert!(is_markdown_file("/w/note.md"));
    assert!(is_markdown_file("/w/deep/note.markdown"));
    assert!(!is_markdown_file("/w/note.txt"));
    assert!(!is_markdown_file("/w/noext"));
    assert!(!is_markdown_file("/w/.md"));

    assert!(is_safe_path(Some("/w/sub/x.md"), "/ignored", "/w"));
    assert!(!is_safe_path(Some("/elsewhere/x.md"), "/ignored", "/w"));
    assert!(!is_safe_path(Some("/wider/x.md"), "/ignored", "/w"));
    assert!(is_safe_path(None, "/w/gone.md", "/w"));
    assert!(!is_safe_path(None, "/other/gone.md", "/w"));
}

#[test]
fn walk_filters_and_sorts() {
    let paths = vec![
        String::from("/w/b.md"),
        String::from("/w/a.md"),
        String::from("/w/.hidden/x.md"),
        String::from("/w/c.txt"),
        String::from("/w/d.markdown"),
    ];
    let walked = walk_md_files(&paths);
    assert_eq!(walked, vec!["/w/a.md", "/w/b.md", "/w/d.markdown"]);
}

#[test]
fn front_matter_titles() {
    let (t, b) = extract_front_matter("---\ntitle: Hello\n---\nBody text", "/w/file.md");
    assert_eq!(t, "Hello");
    assert_eq!(b, "Body text");
    // a blank parsed title falls back to the stem
    let (t, _) = extract_front_matter("---\ntitle: \"  \"\n---\nBody", "/w/stemmed.md");
    assert_eq!(t, "stemmed");
    // no front matter: the stem names the note and nothing is cut
    let (t, b) = extract_front_matter("plain body", "/w/name.md");
    assert_eq!(t, "name");
    assert_eq!(b, "plain body");
    // an unclosed fence is all body
    let (t, b) = extract_front_matter("---\ntitle: X", "/w/open.md");
    assert_eq!(t, "open");
    assert_eq!(b, "---\ntitle: X");
}

#[test]
fn chunking_windows_long_streams() {
    assert_eq!(chunk_ranges(100), vec![(0, 100)]);
    assert_eq!(chunk_ranges(512), vec![(0, 512)]);
    assert_eq!(chunk_ranges(1000), vec![(0, 512), (256, 768), (512, 1000)]);
    assert_eq!(chunk_ranges(0), vec![(0, 0)]);
}

#[test]
fn fresh_ids_and_timestamps() {
    let mut s = fresh_store();
    let n = s
        .create_note_now("Quick", String::from("three words here"), None)
        .unwrap();
    assert_eq!(n.id.len(), 36);
    assert_eq!(n.id.as_bytes()[8], b'-');
    assert!(n.created_at.len() >= 20);
    let again = s.create_note_now("Quick2", String::from("three words more"), None).unwrap();
    assert_ne!(n.id, again.id);
}
