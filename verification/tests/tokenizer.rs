use minisearch::tokenizer::{tokenize, tokenize_with_positions};

#[test]
fn tokenization_normalizes_case_and_punctuation() {
    let tokens = tokenize("Rust, Search-Engine! 101");
    assert_eq!(tokens, vec!["rust", "search", "engine", "101"]);
}

#[test]
fn positions_are_montonic() {
    let tokens = tokenize_with_positions("alpha beta beta");
    assert_eq!(tokens[0].term, "alpha");
    assert_eq!(tokens[0].position, 0);
    assert_eq!(tokens[2].position, 2);
}

#[test]
fn offsets_capture_original_text_ranges() {
    let tokens = tokenize_with_positions("Rust search-engine");
    assert_eq!(
        &"Rust search-engine"[tokens[0].start..tokens[0].end],
        "Rust"
    );
    assert_eq!(
        &"Rust search-engine"[tokens[1].start..tokens[2].end],
        "search-engine"
    );
}

#[test]
fn offsets_count_bytes_of_multibyte_chars() {
    let text = "Édition spéciale, naïve";
    let tokens = tokenize_with_positions(text);
    assert_eq!(tokens.len(), 3);
    assert_eq!(tokens[0].term, "édition");
    assert_eq!(&text[tokens[1].start..tokens[1].end], "spéciale");
    assert_eq!(&text[tokens[2].start..tokens[2].end], "naïve");
    assert_eq!(tokens[2].end, text.len());
}

#[test]
fn empty_and_separator_only_texts_have_no_tokens() {
    assert!(tokenize("").is_empty());
    assert!(tokenize(" ,.;-!? ").is_empty());
}

#[test]
fn tokenize_keeps_the_terms_of_tokenize_with_positions() {
    let text = "One two, THREE-four";
    let terms: Vec<String> = tokenize_with_positions(text)
        .into_iter()
        .map(|token| token.term)
        .collect();
    assert_eq!(tokenize(text), terms);
}
