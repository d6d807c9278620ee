use minisearch::query::{FuzzyTermQuery, MetadataField, MetadataFilter};
use minisearch::{parse_query, PhraseQuery};

#[test]
fn parse_mixed_query() {
    let parsed = parse_query("+rust serch~1 \"search engine\" -java bm25");
    assert_eq!(parsed.required_terms, vec!["rust"]);
    assert_eq!(parsed.excluded_terms, vec!["java"]);
    assert_eq!(parsed.optional_terms, vec!["bm25"]);
    assert_eq!(
        parsed.optional_fuzzy_terms[0],
        FuzzyTermQuery {
            term: "serch".to_string(),
            max_distance: 1,
        }
    );
    assert_eq!(
        parsed.phrases[0],
        PhraseQuery {
            terms: vec!["search".to_string(), "engine".to_string()],
            slop: 0,
        }
    );
}

#[test]
fn parse_required_and_excluded_phrases() {
    let parsed = parse_query("+\"search engine\" -\"toy example\"");
    assert!(parsed.phrases.is_empty());
    assert_eq!(
        parsed.required_phrases[0],
        PhraseQuery {
            terms: vec!["search".to_string(), "engine".to_string()],
            slop: 0,
        }
    );
    assert_eq!(
        parsed.excluded_phrases[0],
        PhraseQuery {
            terms: vec!["toy".to_string(), "example".to_string()],
            slop: 0,
        }
    );
}

#[test]
fn parse_proximity_phrases() {
    let parsed = parse_query("+\"distributed systems\"~3 -\"toy example\"~1");
    assert_eq!(
        parsed.required_phrases[0],
        PhraseQuery {
            terms: vec!["distributed".to_string(), "systems".to_string()],
            slop: 3,
        }
    );
    assert_eq!(
        parsed.excluded_phrases[0],
        PhraseQuery {
            terms: vec!["toy".to_string(), "example".to_string()],
            slop: 1,
        }
    );
}

#[test]
fn parse_required_and_excluded_fuzzy_terms() {
    let parsed = parse_query("+tokenzier~2 -jav~1 rust~");
    assert_eq!(
        parsed.required_fuzzy_terms[0],
        FuzzyTermQuery {
            term: "tokenzier".to_string(),
            max_distance: 2,
        }
    );
    assert_eq!(
        parsed.excluded_fuzzy_terms[0],
        FuzzyTermQuery {
            term: "jav".to_string(),
            max_distance: 1,
        }
    );
    assert_eq!(
        parsed.optional_fuzzy_terms[0],
        FuzzyTermQuery {
            term: "rust".to_string(),
            max_distance: 1,
        }
    );
}

#[test]
fn parse_metadata_filters() {
    let parsed = parse_query("ext:rs +path:src/ -title:generated");
    assert_eq!(
        parsed.required_metadata_filters,
        vec![
            MetadataFilter {
                field: MetadataField::Extension,
                value: "rs".to_string(),
            },
            MetadataFilter {
                field: MetadataField::Path,
                value: "src/".to_string(),
            }
        ]
    );
    assert_eq!(
        parsed.excluded_metadata_filters,
        vec![MetadataFilter {
            field: MetadataField::Title,
            value: "generated".to_string(),
        }]
    );
}

#[test]
fn phrase_slop_saturates_instead_of_overflowing() {
    let parsed = parse_query("\"a b\"~99999999999999999999999999");
    assert_eq!(parsed.phrases[0].slop, usize::MAX);
}

#[test]
fn fuzzy_distance_that_overflows_is_plain_text() {
    let parsed = parse_query("rust~99999999999999999999999999");
    assert!(parsed.optional_fuzzy_terms.is_empty());
    assert_eq!(parsed.optional_terms, vec!["rust", "99999999999999999999999999"]);
}

#[test]
fn metadata_filters_strip_quotes_and_normalize_extensions() {
    let parsed = parse_query("EXT:\".MD\" title:\"\" path:\"guides/\"");
    assert_eq!(
        parsed.required_metadata_filters,
        vec![
            MetadataFilter {
                field: MetadataField::Extension,
                value: "md".to_string(),
            },
            MetadataFilter {
                field: MetadataField::Path,
                value: "guides/".to_string(),
            }
        ]
    );
    assert_eq!(parsed.optional_terms, vec!["title"]);
}

#[test]
fn unterminated_phrase_runs_to_the_end() {
    let parsed = parse_query("-\"open phrase");
    assert_eq!(parsed.excluded_phrases[0].terms, vec!["open", "phrase"]);
}

#[test]
fn signs_without_text_add_nothing() {
    let parsed = parse_query("+ - \"\" +\"!!\"");
    assert_eq!(parsed, minisearch::ParsedQuery::default());
}
