use minisearch::json::{
    json_escape, push_json_string_array, serialize_document, serialize_documents,
    serialize_term_stats, serialize_vocabulary,
};
use minisearch::{DocumentMeta, SearchEngine, TermStat};

#[test]
fn json_escape_handles_control_characters() {
    let mut output = String::new();
    json_escape("line\tone\nzero\0", &mut output);
    assert_eq!(output, "\"line\\tone\\nzero\\u0000\"");
}

#[test]
fn json_escape_handles_quotes_backslashes_and_other_controls() {
    let mut output = String::from("x=");
    json_escape("say \"hi\" \\ \u{08}\u{0C}\r\u{1F}\u{7F} é", &mut output);
    assert_eq!(output, "x=\"say \\\"hi\\\" \\\\ \\b\\f\\r\\u001F\u{7F} é\"");
}

#[test]
fn string_arrays_are_comma_separated() {
    let mut output = String::new();
    push_json_string_array(&mut output, &[]);
    assert_eq!(output, "[]");
    assert_eq!(
        serialize_vocabulary(&["alpha".to_string(), "b\"c".to_string()]),
        "[\"alpha\",\"b\\\"c\"]"
    );
}

#[test]
fn term_stats_serialize_to_objects() {
    let stats = vec![
        TermStat {
            term: "rust".to_string(),
            document_frequency: 2,
            total_frequency: 130,
        },
        TermStat {
            term: "go".to_string(),
            document_frequency: 0,
            total_frequency: 9,
        },
    ];
    assert_eq!(
        serialize_term_stats(&stats),
        "[{\"term\":\"rust\",\"document_frequency\":2,\"total_frequency\":130},\
         {\"term\":\"go\",\"document_frequency\":0,\"total_frequency\":9}]"
    );
    assert_eq!(serialize_term_stats(&[]), "[]");
}

#[test]
fn documents_serialize_with_every_field() {
    let doc = DocumentMeta::with_metadata(
        7,
        "notes/a.TXT",
        3,
        "one two three",
        None,
        "",
        Some(1700000000),
    );
    assert_eq!(
        serialize_document(&doc),
        "{\"id\":7,\"path\":\"notes/a.TXT\",\"length\":3,\"content\":\"one two three\",\
         \"extension\":\"txt\",\"title\":\"a\",\"modified_unix_timestamp_secs\":1700000000}"
    );
    let plain = DocumentMeta::new(0, "README", 0, "");
    assert_eq!(
        serialize_document(&plain),
        "{\"id\":0,\"path\":\"README\",\"length\":0,\"content\":\"\",\
         \"extension\":null,\"title\":\"README\",\"modified_unix_timestamp_secs\":null}"
    );
}

#[test]
fn engine_documents_serialize_as_an_array() {
    let mut engine = SearchEngine::new();
    engine.add_document("a.md", "# A\nx");
    engine.add_document("b.md", "y");
    let json = serialize_documents(engine.documents());
    assert!(json.starts_with("[{\"id\":0,\"path\":\"a.md\",\"length\":2,"));
    assert!(json.contains("},{\"id\":1,\"path\":\"b.md\",\"length\":1,"));
    assert!(json.ends_with("\"title\":\"b\",\"modified_unix_timestamp_secs\":null}]"));
}
