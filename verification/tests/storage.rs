use minisearch::storage::{decode_engine, encode_engine};
use minisearch::{SearchEngine, SearchError};

fn sample_engine() -> SearchEngine {
    let mut engine = SearchEngine::new();
    engine.add_document("a.txt", "rust rust search");
    engine.add_document("b.txt", "rust indexing");
    engine
}

#[test]
fn saved_index_lists_documents_then_postings_by_term() {
    let text = encode_engine(&sample_engine(), "2.500000");
    assert_eq!(
        text,
        "MSE1\nAVG\t2.500000\nDOC\t0\ta.txt\t3\nDOC\t1\tb.txt\t2\n\
         POST\tindexing\t1\t1\nPOST\trust\t0\t0,1\nPOST\trust\t1\t0\nPOST\tsearch\t0\t2\n"
    );
}

#[test]
fn saved_index_reloads_with_the_same_index() {
    let engine = sample_engine();
    let loaded = decode_engine(&encode_engine(&engine, "2.5")).unwrap();
    assert_eq!(loaded.document_count(), 2);
    assert_eq!(loaded.vocabulary(), engine.vocabulary());
    assert_eq!(loaded.document_frequency("rust"), 2);
    assert_eq!(loaded.term_frequency(0, "rust"), 2);
    assert_eq!(loaded.total_token_count(), 5);
    assert_eq!(loaded.documents()[1].path, "b.txt");
    assert_eq!(loaded.documents()[1].length, 2);
    assert_eq!(loaded.documents()[1].content, "");
    assert_eq!(loaded.documents()[1].title, "b");
    assert_eq!(loaded.documents()[1].extension.as_deref(), Some("txt"));
    assert_eq!(encode_engine(&loaded, "2.5"), encode_engine(&engine, "2.5"));
}

#[test]
fn paths_with_separators_are_escaped() {
    let mut engine = SearchEngine::new();
    engine.add_document("dir\\odd\tname\nx.md", "hello");
    let text = encode_engine(&engine, "1");
    assert!(text.contains("DOC\t0\tdir\\\\odd\\tname\\nx.md\t1\n"));
    let loaded = decode_engine(&text).unwrap();
    assert_eq!(loaded.documents()[0].path, "dir\\odd\tname\nx.md");
}

#[test]
fn empty_engine_saves_header_and_average_only() {
    let text = encode_engine(&SearchEngine::new(), "0.000000");
    assert_eq!(text, "MSE1\nAVG\t0.000000\n");
    let loaded = decode_engine(&text).unwrap();
    assert_eq!(loaded.document_count(), 0);
    assert_eq!(loaded.vocabulary_size(), 0);
}

fn parse_message(text: &str) -> String {
    match decode_engine(text) {
        Err(SearchError::Parse(message)) => message,
        Err(other) => panic!("unexpected error {:?}", other),
        Ok(_) => panic!("text was accepted"),
    }
}

#[test]
fn malformed_indexes_are_refused() {
    assert_eq!(parse_message(""), "missing index header");
    assert_eq!(parse_message("MSE2\nAVG\t1\n"), "missing index header");
    assert_eq!(parse_message("MSE1\nAVERAGE 1\n"), "missing average document length");
    assert_eq!(parse_message("MSE1\nAVG\t1\nDOC\t1\ta\t0\n"), "malformed index line");
    assert_eq!(parse_message("MSE1\nAVG\t1\nDOC\t0\ta\n"), "malformed index line");
    assert_eq!(parse_message("MSE1\nAVG\t1\nDOC\t0\ta\\q\t1\n"), "malformed index line");
    assert_eq!(parse_message("MSE1\nAVG\t1\nNOTE\tx\n"), "malformed index line");
    assert_eq!(
        parse_message("MSE1\nAVG\t1\nDOC\t0\ta\t1\nPOST\tx\t0\t1\n"),
        "posting outside the documents"
    );
    assert_eq!(
        parse_message("MSE1\nAVG\t1\nDOC\t0\ta\t1\nPOST\tx\t3\t0\n"),
        "posting outside the documents"
    );
    assert_eq!(
        parse_message("MSE1\nAVG\t1\nDOC\t0\ta\t2\nPOST\tx\t0\t1\n"),
        "a token has no term"
    );
}

#[test]
fn lenient_forms_of_the_format_are_read() {
    let loaded = decode_engine("MSE1\nAVG\tanything\nDOC\t0\ta\t2\nPOST\tb\t0\t1\nPOST\ta\t0\t0").unwrap();
    assert_eq!(loaded.vocabulary(), vec!["a", "b"]);
    assert_eq!(loaded.term_frequency(0, "b"), 1);
}
