//! The text utilities: word counting, snippets, query sanitization,
//! the vector byte codec, decimal strings, and content hashing.

use sunder::chars::{contains_char, str_eq, str_lt};
use sunder::codec::{blob_to_embedding, embedding_to_blob};
use sunder::fts::sanitize_fts_query;
use sunder::links::content_hash;
use sunder::numstr::{parse_u32, render_u32};
use sunder::snippet::make_snippet;
use sunder::text::{trim, validate_content, validate_title};
use sunder::words::{tokenize, word_count};

#[test]
fn word_count_counts_whitespace_tokens() {
    assert_eq!(word_count(""), 0);
    assert_eq!(word_count("   "), 0);
    assert_eq!(word_count("one"), 1);
    assert_eq!(word_count("one two\tthree\nfour"), 4);
    assert_eq!(word_count("  padded   out  "), 2);
}

#[test]
fn tokenize_splits_words() {
    let toks = tokenize("alpha  beta\tgamma");
    assert_eq!(toks, vec!["alpha", "beta", "gamma"]);
    assert_eq!(tokenize("").len(), 0);
}

#[test]
fn trim_strips_both_ends() {
    assert_eq!(trim("  x  "), "x");
    assert_eq!(trim("\t\n"), "");
    assert_eq!(trim("inner space kept"), "inner space kept");
}

#[test]
fn title_and_content_validation_bounds() {
    assert!(validate_title("ok").is_ok());
    assert!(validate_title("   ").is_err());
    assert!(validate_title(&"x".repeat(500)).is_ok());
    assert!(validate_title(&"x".repeat(501)).is_err());
    // byte length counts, not characters
    let two_byte = "é".repeat(251);
    assert!(validate_title(&two_byte).is_err());
    assert!(validate_content(&"y".repeat(2 * 1024 * 1024)).is_ok());
    assert!(validate_content(&"y".repeat(2 * 1024 * 1024 + 1)).is_err());
}

#[test]
fn snippet_strips_markdown_and_joins_lines() {
    assert_eq!(make_snippet("# Title\n**bold** text"), "Title bold text");
    assert_eq!(make_snippet("## A\nB\nC"), "A B C");
    assert_eq!(make_snippet(""), "");
    assert_eq!(make_snippet("plain"), "plain");
    assert_eq!(make_snippet("a\r\nb"), "a b");
}

#[test]
fn snippet_truncates_to_two_hundred_bytes() {
    let long = "m".repeat(260);
    let s = make_snippet(&long);
    assert_eq!(s.len(), 203);
    assert!(s.ends_with("..."));
    assert!(s.starts_with("mmm"));
    let short = "n".repeat(150);
    assert_eq!(make_snippet(&short), short);
}

#[test]
fn sanitize_quotes_and_drops_operators() {
    assert_eq!(sanitize_fts_query("hello world"), "\"hello\" \"world\"");
    assert_eq!(sanitize_fts_query("cats OR dogs"), "\"cats\" \"dogs\"");
    assert_eq!(sanitize_fts_query("a AND b NOT c NEAR d"), "\"a\" \"b\" \"c\" \"d\"");
    assert_eq!(sanitize_fts_query("or And nEaR not"), "");
    assert_eq!(sanitize_fts_query("wild* col:umn plain"), "\"plain\"");
    assert_eq!(sanitize_fts_query("say \"hi\" now"), "\"say\" \"hi\" \"now\"");
    assert_eq!(sanitize_fts_query(""), "");
    assert_eq!(sanitize_fts_query("oracle"), "\"oracle\"");
}

#[test]
fn vector_blob_round_trip() {
    let words: Vec<u32> = vec![0, 1, 0x12345678, u32::MAX, 0x80000000];
    let blob = embedding_to_blob(&words);
    assert_eq!(blob.len(), 20);
    assert_eq!(&blob[0..4], &[0, 0, 0, 0]);
    assert_eq!(&blob[4..8], &[1, 0, 0, 0]);
    assert_eq!(&blob[8..12], &[0x78, 0x56, 0x34, 0x12]);
    let back = blob_to_embedding(&blob);
    assert_eq!(back, words);
}

#[test]
fn vector_blob_matches_float_bits() {
    // the bit patterns are those of single-precision floats; encoding
    // them must agree with the floats' own little-endian bytes
    let floats: Vec<f32> = vec![0.0, 1.0, -2.5, 3.25e-5];
    let words: Vec<u32> = floats.iter().map(|f| f.to_bits()).collect();
    let blob = embedding_to_blob(&words);
    let mut expected: Vec<u8> = Vec::new();
    for f in &floats {
        expected.extend_from_slice(&f.to_le_bytes());
    }
    assert_eq!(blob, expected);
    let decoded: Vec<f32> = blob_to_embedding(&blob).iter().map(|w| f32::from_bits(*w)).collect();
    assert_eq!(decoded, floats);
}

#[test]
fn decimal_strings_round_trip() {
    assert_eq!(render_u32(0), "0");
    assert_eq!(render_u32(650000), "650000");
    assert_eq!(render_u32(u32::MAX), "4294967295");
    assert_eq!(parse_u32("300"), Some(300));
    assert_eq!(parse_u32("650000"), Some(650000));
    assert_eq!(parse_u32(""), None);
    assert_eq!(parse_u32("12a"), None);
    assert_eq!(parse_u32("4294967295"), Some(u32::MAX));
    assert_eq!(parse_u32("4294967296"), None);
    assert_eq!(parse_u32(&render_u32(123456)), Some(123456));
}

#[test]
fn content_hash_is_sha256_hex() {
    // the digest of the empty string is a published constant; this
    // fails if the hashing or the hex step hands its input back
    assert_eq!(
        content_hash(""),
        "e3b0c44298fc1c149afbf4c8996fb92427ae41e4649b934ca495991b7852b855"
    );
    assert_eq!(
        content_hash("hello world"),
        "b94d27b9934d3e08a52e52d7da7dabfac484efe37a5380ee9088f7ace2efcde9"
    );
    assert_eq!(content_hash("a").len(), 64);
    assert_ne!(content_hash("a"), content_hash("b"));
}

#[test]
fn string_order_helpers() {
    assert!(str_lt("a", "b"));
    assert!(str_lt("a", "ab"));
    assert!(!str_lt("b", "a"));
    assert!(!str_lt("a", "a"));
    assert!(str_eq("same", "same"));
    assert!(!str_eq("same", "Same"));
    assert!(contains_char("a*b", '*'));
    assert!(!contains_char("ab", '*'));
}
