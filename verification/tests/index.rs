use minisearch::search::DocumentMatch;
use minisearch::{parse_query, SearchEngine};

#[test]
fn term_statistics_are_exposed() {
    let mut engine = SearchEngine::new();
    engine.add_document("a.txt", "rust rust search");
    engine.add_document("b.txt", "rust indexing");

    assert_eq!(engine.document_frequency("Rust"), 2);
    assert_eq!(engine.term_frequency(0, "rust"), 2);
    assert!(engine.contains_term(1, "rust"));
    assert_eq!(engine.top_terms(1)[0].term, "rust");
}

fn engine_of(docs: &[(&str, &str)]) -> SearchEngine {
    let mut engine = SearchEngine::new();
    for (path, content) in docs {
        engine.add_document(path, content);
    }
    engine
}

fn matched_paths(engine: &SearchEngine, query: &str, prefix: Option<&str>) -> Vec<String> {
    engine
        .match_documents(&parse_query(query), prefix)
        .into_iter()
        .map(|m: DocumentMatch| m.path)
        .collect()
}

#[test]
fn vocabulary_is_sorted_and_counted() {
    let engine = engine_of(&[("a.txt", "zeta alpha Beta alpha"), ("b.txt", "beta gamma")]);
    assert_eq!(engine.vocabulary(), vec!["alpha", "beta", "gamma", "zeta"]);
    assert_eq!(engine.vocabulary_size(), 4);
    assert_eq!(engine.document_count(), 2);
    assert_eq!(engine.total_token_count(), 6);
}

#[test]
fn added_documents_keep_their_metadata() {
    let engine = engine_of(&[
        ("notes/Guide.MD", "\n  # Getting Started  \nbody text"),
        ("plain", "no heading here"),
    ]);
    let docs = engine.documents();
    assert_eq!(docs.len(), 2);
    assert_eq!(docs[0].id, 0);
    assert_eq!(docs[0].path, "notes/Guide.MD");
    assert_eq!(docs[0].length, 4);
    assert_eq!(docs[0].extension.as_deref(), Some("md"));
    assert_eq!(docs[0].title, "Getting Started");
    assert_eq!(docs[1].extension, None);
    assert_eq!(docs[1].title, "plain");
    assert_eq!(engine.document(1).map(|d| d.length), Some(3));
    assert!(engine.document(2).is_none());
}

#[test]
fn frequencies_of_texts_that_are_not_one_term_are_zero() {
    let engine = engine_of(&[("a.txt", "rust search")]);
    assert_eq!(engine.document_frequency("rust search"), 0);
    assert_eq!(engine.term_frequency(0, "..."), 0);
    assert!(!engine.contains_term(0, ""));
    assert_eq!(engine.term_frequency(5, "rust"), 0);
    assert!(!engine.contains_term(3, "rust"));
}

#[test]
fn top_terms_rank_by_total_then_documents_then_term() {
    let engine = engine_of(&[
        ("a.txt", "beta beta alpha gamma"),
        ("b.txt", "alpha delta gamma"),
    ]);
    let stats = engine.top_terms(10);
    let ranked: Vec<(String, usize, usize)> = stats
        .iter()
        .map(|s| (s.term.clone(), s.total_frequency, s.document_frequency))
        .collect();
    assert_eq!(
        ranked,
        vec![
            ("alpha".to_string(), 2, 2),
            ("gamma".to_string(), 2, 2),
            ("beta".to_string(), 2, 1),
            ("delta".to_string(), 1, 1),
        ]
    );
    assert_eq!(engine.top_terms(2).len(), 2);
    assert!(engine.top_terms(0).is_empty());
}

#[test]
fn matching_requires_the_exact_phrase_order() {
    let engine = engine_of(&[
        ("a.txt", "distributed systems are fun"),
        ("b.txt", "systems distributed are mentioned"),
    ]);
    assert_eq!(matched_paths(&engine, "\"distributed systems\"", None), vec!["a.txt"]);
}

#[test]
fn matching_allows_gaps_within_the_slop() {
    let engine = engine_of(&[
        ("exact.txt", "distributed systems are fun"),
        ("near.txt", "distributed storage and systems are fun"),
        ("reversed.txt", "systems and distributed are mentioned"),
    ]);
    assert_eq!(matched_paths(&engine, "\"distributed systems\"", None), vec!["exact.txt"]);
    let matches = engine.match_documents(&parse_query("\"distributed systems\"~2"), None);
    assert_eq!(matches.len(), 2);
    assert_eq!(matches[0].path, "exact.txt");
    assert_eq!(matches[0].phrase_hits[0].used_slop, 0);
    assert_eq!(matches[1].path, "near.txt");
    assert_eq!(matches[1].phrase_hits[0].used_slop, 2);
    assert_eq!(matches[1].phrase_hits[0].term_count, 2);
}

#[test]
fn required_proximity_phrase_filters_matches() {
    let engine = engine_of(&[
        ("guide.txt", "rust distributed systems guide"),
        ("near.txt", "rust distributed storage systems guide"),
        ("far.txt", "rust distributed storage indexing examples systems guide"),
    ]);
    assert_eq!(
        matched_paths(&engine, "+\"distributed systems\"~2 rust", None),
        vec!["guide.txt", "near.txt"]
    );
}

#[test]
fn required_and_excluded_terms_filter_matches() {
    let engine = engine_of(&[
        ("rust.txt", "rust ownership borrowing memory safety"),
        ("mixed.txt", "rust and java interoperability"),
    ]);
    assert_eq!(matched_paths(&engine, "+rust -java", None), vec!["rust.txt"]);
}

#[test]
fn required_and_excluded_phrases_filter_matches() {
    let engine = engine_of(&[
        ("guide.txt", "a search engine with phrase search and bm25 ranking"),
        ("toy.txt", "a search engine toy example with phrase search"),
    ]);
    assert_eq!(
        matched_paths(&engine, "+\"search engine\" -\"toy example\"", None),
        vec!["guide.txt"]
    );
}

#[test]
fn path_prefix_filters_matches() {
    let engine = engine_of(&[
        ("guides/rust.txt", "rust search engine rust rust"),
        ("notes/rust.txt", "rust search engine"),
    ]);
    assert_eq!(matched_paths(&engine, "rust", Some("guides/")), vec!["guides/rust.txt"]);
    assert_eq!(matched_paths(&engine, "rust", None).len(), 2);
}

#[test]
fn matches_report_hits_and_labels() {
    let engine = engine_of(&[
        ("doc1.txt", "rust search engine rust bm25"),
        ("doc2.txt", "rust engine"),
    ]);
    let matches = engine.match_documents(&parse_query("rust +engine \"search engine\""), None);
    assert_eq!(matches.len(), 2);
    let first = &matches[0];
    assert_eq!(first.doc_id, 0);
    assert_eq!(first.length, 5);
    assert_eq!(first.term_hits.len(), 2);
    assert_eq!(first.term_hits[0].term_frequency, 2);
    assert_eq!(first.term_hits[0].document_frequency, 2);
    assert_eq!(first.phrase_hits.len(), 1);
    assert_eq!(first.matched_terms, vec!["engine", "rust", "search engine"]);
    assert_eq!(matches[1].matched_terms, vec!["engine", "rust"]);
    assert!(matches[1].phrase_hits.is_empty());
}

#[test]
fn queries_without_terms_or_phrases_match_nothing() {
    let engine = engine_of(&[("a.txt", "rust")]);
    assert!(engine.match_documents(&parse_query(""), None).is_empty());
    assert!(engine.match_documents(&parse_query("-rust"), None).is_empty());
    assert!(engine.match_documents(&parse_query("missing"), None).is_empty());
}
