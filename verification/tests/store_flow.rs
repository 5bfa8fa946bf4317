//! End-to-end flows over the in-memory store: creation and search,
//! re-indexing, delete cascades, watcher decisions, hybrid fusion, and
//! the reindex guard.

use sunder::codec::embedding_to_blob;
use sunder::errors::SunderError;
use sunder::index::ReindexFlag;
use sunder::search::{MatchType, SearchMode, SemanticHit};
use sunder::store::Store;
use sunder::watch::{extract_front_matter, plan_file_change, FileAction};

fn fresh_store() -> Store {
    let mut s = Store::new();
    s.run_migrations().unwrap();
    s
}

fn blob(seed: u32) -> Vec<u8> {
    let mut words: Vec<u32> = Vec::new();
    let mut i: u32 = 0;
    while i < 384 {
        words.push(seed.wrapping_mul(31).wrapping_add(i));
        i += 1;
    }
    embedding_to_blob(&words)
}

#[test]
fn create_then_search() {
    let mut s = fresh_store();
    let note = s
        .create_note(
            "Birds",
            String::from("Sparrows and finches are small birds."),
            None,
            String::from("n1"),
            String::from("2024-01-01T00:00:00+00:00"),
        )
        .unwrap();
    assert_eq!(note.id, "n1");
    let results = s
        .search("birds", SearchMode::Fulltext, &Vec::new(), 10)
        .unwrap();
    assert_eq!(results.len(), 1);
    assert_eq!(results[0].id, "n1");
    assert!(matches!(results[0].match_type, MatchType::Fulltext));
    assert!(results[0].score_micros > 0);
}

#[test]
fn update_reindexes() {
    let mut s = fresh_store();
    s.create_note(
        "Topic",
        String::from("an early note about gardens"),
        None,
        String::from("n1"),
        String::from("t1"),
    )
    .unwrap();
    s.index_note("n1", blob(1), String::from("t2")).unwrap();
    let updated = s
        .update_note(
            "n1",
            None,
            Some(String::from("Completely different topic about calculus")),
            String::from("t3"),
        )
        .unwrap();
    assert_eq!(updated.content, "Completely different topic about calculus");
    // the host re-embeds and re-indexes; the new vector replaces the row
    s.index_note("n1", blob(2), String::from("t4")).unwrap();
    assert_eq!(s.embeddings.len(), 1);
    assert_eq!(s.dense.len(), 1);
    assert_eq!(s.embeddings[0].vector, s.dense[0].vector);
    // the vector index now ranks this note first for the new topic
    let hits = vec![SemanticHit { note_id: String::from("n1"), similarity_micros: 900000 }];
    let results = s.search("calculus", SearchMode::Semantic, &hits, 10).unwrap();
    assert_eq!(results.len(), 1);
    assert_eq!(results[0].id, "n1");
    assert!(results[0].score_micros > 300000);
}

#[test]
fn delete_cascades() {
    let mut s = fresh_store();
    s.create_note("A", String::from("first note body here"), None, String::from("a"), String::from("t"))
        .unwrap();
    s.create_note("B", String::from("second note body here"), None, String::from("b"), String::from("t"))
        .unwrap();
    s.index_note("a", blob(1), String::from("t")).unwrap();
    s.index_note("b", blob(2), String::from("t")).unwrap();
    let sims = vec![512345i64];
    let count = s.rebuild_full_cache(&sims, "t").unwrap();
    assert_eq!(count, 1);
    assert_eq!(s.edges.len(), 1);

    s.delete_note("a").unwrap();
    assert!(s.embeddings.iter().all(|e| e.note_id != "a"));
    assert!(s.dense.iter().all(|d| d.note_id != "a"));
    assert!(s.edges.iter().all(|e| e.note_id_a != "a" && e.note_id_b != "a"));
    assert_eq!(s.embeddings.len(), 1);
    assert_eq!(s.dense.len(), 1);
    assert_eq!(s.edges.len(), 0);
    assert!(matches!(s.get_note("a"), Err(SunderError::NotFound(_))));
}

#[test]
fn watcher_create_then_delete() {
    let mut s = fresh_store();
    let path = "/tmp/x/hello.md";
    let content = "hello world from disk";
    let (title, body) = extract_front_matter(content, path);
    assert_eq!(title, "hello");
    assert_eq!(body, "hello world from disk");

    let action = plan_file_change(true, &title, &body, None);
    assert_eq!(action, FileAction::Create);
    let note = s
        .create_note(&title, body.clone(), Some(String::from(path)), String::from("n1"), String::from("t"))
        .unwrap();
    assert_eq!(note.file_path.as_deref(), Some(path));
    let found = s.get_note_by_file_path(path).unwrap();
    assert_eq!(found.title, "hello");

    // the same file settles again unchanged: nothing to do
    let again = plan_file_change(true, &title, &body, Some(&found));
    assert_eq!(again, FileAction::Skip);

    // the file vanishes: only the row goes, never through the editor path
    let gone = plan_file_change(false, "", "", Some(&found));
    assert_eq!(gone, FileAction::DeleteRow);
    s.remove_embedding(&found.id).unwrap();
    s.delete_note(&found.id).unwrap();
    assert!(s.get_note_by_file_path(path).is_none());
}

#[test]
fn hybrid_fusion() {
    let mut s = fresh_store();
    s.create_note("A", String::from("apple banana"), None, String::from("a"), String::from("t"))
        .unwrap();
    s.create_note("B", String::from("fruit salad"), None, String::from("b"), String::from("t"))
        .unwrap();
    s.index_note("a", blob(1), String::from("t")).unwrap();
    s.index_note("b", blob(2), String::from("t")).unwrap();
    // the vector index finds both notes for the query
    let hits = vec![
        SemanticHit { note_id: String::from("b"), similarity_micros: 800000 },
        SemanticHit { note_id: String::from("a"), similarity_micros: 700000 },
    ];
    let results = s.search("fruit", SearchMode::Hybrid, &hits, 10).unwrap();
    assert_eq!(results.len(), 2);
    // B matched lexically and semantically: strictly greater fused score
    assert_eq!(results[0].id, "b");
    assert!(matches!(results[0].match_type, MatchType::Both));
    assert_eq!(results[1].id, "a");
    assert!(matches!(results[1].match_type, MatchType::Semantic));
    assert!(results[0].score_micros > results[1].score_micros);
    // exact fused scores: 1/61 + 1/61 and 1/62, in millionths
    assert_eq!(results[0].score_micros, 32786);
    assert_eq!(results[1].score_micros, 16129);
}

#[test]
fn concurrent_reindex() {
    let mut flag = ReindexFlag::new();
    let first = flag.try_begin();
    let second = flag.try_begin();
    assert!(first);
    assert!(!second);
    flag.end();
    assert!(flag.try_begin());
}

#[test]
fn create_validation() {
    let mut s = fresh_store();
    let r = s.create_note("   ", String::from("x"), None, String::from("n1"), String::from("t"));
    assert!(matches!(r, Err(SunderError::ValidationError(_))));
    let long_title = "x".repeat(501);
    let r = s.create_note(&long_title, String::from("x"), None, String::from("n1"), String::from("t"));
    assert!(matches!(r, Err(SunderError::ValidationError(_))));
    let ok_title = "x".repeat(500);
    assert!(s.create_note(&ok_title, String::from("x"), None, String::from("n1"), String::from("t")).is_ok());
    let big = "y".repeat(2 * 1024 * 1024 + 1);
    let r = s.create_note("T", big, None, String::from("n2"), String::from("t"));
    assert!(matches!(r, Err(SunderError::ContentTooLarge(_))));
}

#[test]
fn duplicate_file_path_is_rejected() {
    let mut s = fresh_store();
    s.create_note("A", String::from("one"), Some(String::from("/p/a.md")), String::from("a"), String::from("t"))
        .unwrap();
    let r = s.create_note(
        "B",
        String::from("two"),
        Some(String::from("/p/a.md")),
        String::from("b"),
        String::from("t"),
    );
    assert!(matches!(r, Err(SunderError::AlreadyExists(_))));
    let r = s.create_note("B", String::from("two"), None, String::from("a"), String::from("t"));
    assert!(matches!(r, Err(SunderError::DatabaseError(_))));
}

#[test]
fn update_trims_and_recounts() {
    let mut s = fresh_store();
    s.create_note("A", String::from("one two three"), None, String::from("a"), String::from("t"))
        .unwrap();
    let n = s
        .update_note("a", Some(String::from("  New Title  ")), Some(String::from("just two")), String::from("t2"))
        .unwrap();
    assert_eq!(n.title, "New Title");
    assert_eq!(n.word_count, 2);
    assert_eq!(n.updated_at, "t2");
    assert_eq!(n.created_at, "t");
    let missing = s.update_note("zz", None, None, String::from("t3"));
    assert!(matches!(missing, Err(SunderError::NotFound(_))));
}

#[test]
fn index_note_upserts_both_tables() {
    let mut s = fresh_store();
    s.create_note("A", String::from("body text here"), None, String::from("a"), String::from("t"))
        .unwrap();
    s.index_note("a", blob(1), String::from("t1")).unwrap();
    assert_eq!(s.embeddings.len(), 1);
    assert_eq!(s.dense.len(), 1);
    assert_eq!(s.embeddings[0].model_version, "minilm-v2-q8");
    let first_vec = s.embeddings[0].vector.clone();
    // indexing again with the same bytes leaves everything but the
    // timestamp identical
    s.index_note("a", blob(1), String::from("t2")).unwrap();
    assert_eq!(s.embeddings.len(), 1);
    assert_eq!(s.embeddings[0].vector, first_vec);
    assert_eq!(s.dense[0].vector, first_vec);
    assert_eq!(s.embeddings[0].updated_at, "t2");
    // a missing note is a constraint violation
    let r = s.index_note("zz", blob(1), String::from("t3"));
    assert!(matches!(r, Err(SunderError::DatabaseError(_))));
    // removal empties both tables together
    s.remove_embedding("a").unwrap();
    assert_eq!(s.embeddings.len(), 0);
    assert_eq!(s.dense.len(), 0);
}

#[test]
fn migrations_are_idempotent() {
    let mut s = Store::new();
    let first = s.run_migrations().unwrap();
    assert_eq!(first, 5);
    let second = s.run_migrations().unwrap();
    assert_eq!(second, 0);
    assert_eq!(s.applied_migrations, vec![1, 2, 3, 4, 5]);
}

#[test]
fn empty_query_is_rejected() {
    let s = fresh_store();
    let r = s.search("", SearchMode::Hybrid, &Vec::new(), 10);
    assert!(matches!(r, Err(SunderError::EmptyQuery)));
    let r = s.search("   \t ", SearchMode::Fulltext, &Vec::new(), 10);
    assert!(matches!(r, Err(SunderError::EmptyQuery)));
}

#[test]
fn fulltext_is_case_insensitive_and_ignores_punctuation() {
    let mut s = fresh_store();
    s.create_note(
        "Birds",
        String::from("Sparrows and finches are small birds."),
        None,
        String::from("n1"),
        String::from("t"),
    )
    .unwrap();
    let results = s.search("BIRDS", SearchMode::Fulltext, &Vec::new(), 10).unwrap();
    assert_eq!(results.len(), 1);
    let none = s.search("reptiles", SearchMode::Fulltext, &Vec::new(), 10).unwrap();
    assert_eq!(none.len(), 0);
}

#[test]
fn operator_only_query_matches_nothing() {
    let mut s = fresh_store();
    s.create_note("A", String::from("or and not near"), None, String::from("a"), String::from("t"))
        .unwrap();
    // the query survives trimming but sanitizes to nothing
    let r = s.search("OR", SearchMode::Fulltext, &Vec::new(), 10).unwrap();
    assert_eq!(r.len(), 0);
    let r = s.search("and NOT", SearchMode::Hybrid, &Vec::new(), 10).unwrap();
    assert_eq!(r.len(), 0);
}

#[test]
fn error_kind_names() {
    assert_eq!(SunderError::EmptyQuery.kind_name(), "EmptyQuery");
    assert_eq!(SunderError::AlreadyRunning.kind_name(), "AlreadyRunning");
    assert_eq!(
        SunderError::NotFound(String::from("x")).kind_name(),
        "NotFound"
    );
}
