use minisearch::json::json_escape;
use minisearch::tokenizer::tokenize;
use minisearch::{parse_query, SearchEngine};

fn engine_of(docs: &[(&str, &str)]) -> SearchEngine {
    let mut engine = SearchEngine::new();
    for (path, content) in docs {
        engine.add_document(path, content);
    }
    engine
}

#[test]
fn adding_a_document_raises_frequencies_of_its_terms_only() {
    let mut engine = engine_of(&[("a.txt", "rust search"), ("b.txt", "rust")]);
    assert_eq!(engine.document_frequency("rust"), 2);
    assert_eq!(engine.document_frequency("search"), 1);
    engine.add_document("c.txt", "search search engine");
    assert_eq!(engine.document_frequency("rust"), 2);
    assert_eq!(engine.document_frequency("search"), 2);
    assert_eq!(engine.document_frequency("engine"), 1);
    assert_eq!(engine.term_frequency(0, "search"), 1);
    assert_eq!(engine.term_frequency(2, "search"), 2);
}

#[test]
fn containing_a_term_is_having_a_nonzero_frequency() {
    let engine = engine_of(&[("a.txt", "alpha beta"), ("b.txt", "gamma")]);
    for doc_id in 0..3 {
        for term in ["alpha", "beta", "gamma", "delta", "alpha beta", ""] {
            assert_eq!(
                engine.contains_term(doc_id, term),
                engine.term_frequency(doc_id, term) > 0
            );
        }
    }
}

#[test]
fn vocabulary_length_is_vocabulary_size() {
    let engine = engine_of(&[("a.txt", "one two two three"), ("b.txt", "three four")]);
    assert_eq!(engine.vocabulary().len(), engine.vocabulary_size());
    assert_eq!(engine.vocabulary_size(), 4);
}

#[test]
fn top_terms_for_a_smaller_limit_are_a_prefix() {
    let engine = engine_of(&[
        ("a.txt", "a b b c c c d d d d"),
        ("b.txt", "b c e e e e"),
    ]);
    let all = engine.top_terms(10);
    assert_eq!(all.len(), 5);
    for k in 0..6 {
        assert_eq!(engine.top_terms(k), all[..k.min(all.len())].to_vec());
    }
}

#[test]
fn larger_slop_keeps_matches_and_their_slop() {
    let engine = engine_of(&[
        ("near.txt", "distributed storage systems"),
        ("far.txt", "distributed a b c systems"),
    ]);
    let tight = engine.match_documents(&parse_query("\"distributed systems\"~1"), None);
    assert_eq!(tight.len(), 1);
    assert_eq!(tight[0].phrase_hits[0].used_slop, 1);
    let loose = engine.match_documents(&parse_query("\"distributed systems\"~5"), None);
    assert_eq!(loose.len(), 2);
    assert_eq!(loose[0].path, "near.txt");
    assert_eq!(loose[0].phrase_hits[0].used_slop, 1);
    assert_eq!(loose[1].phrase_hits[0].used_slop, 3);
}

#[test]
fn one_term_phrases_match_documents_with_the_term() {
    let engine = engine_of(&[("a.txt", "x rust y"), ("b.txt", "go")]);
    let matches = engine.match_documents(&parse_query("\"Rust\"~4"), None);
    assert_eq!(matches.len(), 1);
    assert_eq!(matches[0].doc_id, 0);
    assert_eq!(matches[0].phrase_hits[0].used_slop, 0);
    assert_eq!(matches[0].matched_terms, vec!["rust"]);
}

#[test]
fn json_strings_hold_no_raw_control_characters() {
    let all_controls: String = (0u32..0x20).filter_map(char::from_u32).collect();
    let mut output = String::new();
    json_escape(&all_controls, &mut output);
    assert!(output.chars().all(|c| c as u32 >= 0x20));
    assert!(output.starts_with("\"\\u0000\\u0001"));
    assert!(output.contains("\\b\\t\\n\\u000B\\f\\r\\u000E"));
}

#[test]
fn tokenizing_tokens_again_gives_the_same_tokens() {
    for text in ["Rust, Search-Engine! 101", "", "  a  B\tc\n", "x1y2 -- Z9"] {
        let tokens = tokenize(text);
        assert_eq!(tokenize(&tokens.join(" ")), tokens);
    }
}

#[test]
fn parsed_query_terms_are_single_tokens() {
    let parsed = parse_query("+Rust serch~1 \"Search, Engine\" -Java bm25 \"x y\"~2 -tok-en");
    let mut terms: Vec<String> = Vec::new();
    terms.extend(parsed.optional_terms.iter().cloned());
    terms.extend(parsed.required_terms.iter().cloned());
    terms.extend(parsed.excluded_terms.iter().cloned());
    terms.extend(parsed.optional_fuzzy_terms.iter().map(|f| f.term.clone()));
    for phrase in parsed.phrases.iter().chain(parsed.required_phrases.iter()) {
        assert!(!phrase.terms.is_empty());
        terms.extend(phrase.terms.iter().cloned());
    }
    assert_eq!(terms.len(), 10);
    for term in terms {
        assert_eq!(tokenize(&term), vec![term.clone()]);
    }
}

#[test]
fn adding_a_document_joins_its_terms_to_the_vocabulary() {
    let mut engine = engine_of(&[("a.txt", "beta alpha")]);
    engine.add_document("b.txt", "gamma alpha");
    assert_eq!(engine.vocabulary(), vec!["alpha", "beta", "gamma"]);
}
