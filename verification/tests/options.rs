use minisearch::options::parse_index_options;
use minisearch::{IndexOptions, SearchError};

#[test]
fn default_options_index_text_and_markdown() {
    let options = IndexOptions::default();
    assert_eq!(options.extensions(), &["txt".to_string(), "md".to_string()]);
    assert_eq!(options.max_file_size_bytes(), None);
    assert_eq!(IndexOptions::new().extensions(), options.extensions());
}

#[test]
fn extensions_are_normalized_and_deduplicated() {
    let options = IndexOptions::default().with_extensions(&[" .MD", "rs", "", "..", "md", "Txt", "rs"]);
    assert_eq!(
        options.extensions(),
        &["md".to_string(), "rs".to_string(), "txt".to_string()]
    );
}

#[test]
fn size_limit_is_kept_and_applied() {
    let options = IndexOptions::default()
        .with_extensions(&["md", "rs", "txt"])
        .with_max_file_size_bytes(20);
    assert_eq!(options.max_file_size_bytes(), Some(20));
    assert_eq!(options.extensions().len(), 3);
    assert!(options.accepts_file_size(20));
    assert!(!options.accepts_file_size(21));
    assert!(IndexOptions::new().accepts_file_size(u64::MAX));
}

#[test]
fn supported_files_are_found_by_extension() {
    let options = IndexOptions::default().with_extensions(&["md", "rs"]);
    assert!(options.is_supported_file("docs/guide.md"));
    assert!(options.is_supported_file("src/LIB.RS"));
    assert!(!options.is_supported_file("notes/large.txt"));
    assert!(!options.is_supported_file("Makefile"));
    assert!(!options.is_supported_file(".md"));
}

#[test]
fn error_messages_name_their_kind() {
    assert_eq!(
        SearchError::Parse("bad line".to_string()).message(),
        "Parse error: bad line"
    );
    assert_eq!(
        SearchError::InvalidArgument("no such directory".to_string()).message(),
        "Invalid argument: no such directory"
    );
    let io = SearchError::from(std::io::Error::new(std::io::ErrorKind::Other, "disk gone"));
    assert_eq!(io.message(), "I/O error: disk gone");
}

fn args(list: &[&str]) -> Vec<String> {
    list.iter().map(|a| a.to_string()).collect()
}

#[test]
fn index_arguments_set_extensions_and_size() {
    let options = parse_index_options(&args(&["--ext=txt,MD,,rs", "--max-bytes=+100"])).unwrap();
    assert_eq!(
        options.extensions(),
        &["txt".to_string(), "md".to_string(), "rs".to_string()]
    );
    assert_eq!(options.max_file_size_bytes(), Some(100));
    let defaults = parse_index_options(&[]).unwrap();
    assert_eq!(defaults.extensions(), IndexOptions::default().extensions());
    assert!(parse_index_options(&args(&["--ext="])).unwrap().extensions().is_empty());
}

#[test]
fn bad_index_arguments_are_refused() {
    let message = |list: &[&str]| match parse_index_options(&args(list)) {
        Err(SearchError::InvalidArgument(m)) => m,
        _ => panic!("arguments were accepted"),
    };
    assert_eq!(message(&["--max-bytes=12x"]), "invalid value for --max-bytes: 12x");
    assert_eq!(message(&["--max-bytes=18446744073709551616"]), "invalid value for --max-bytes: 18446744073709551616");
    assert_eq!(message(&["--max-bytes="]), "invalid value for --max-bytes: ");
    assert_eq!(message(&["--ext=md", "--fast"]), "unknown index option: --fast");
    assert_eq!(message(&["--fast", "--max-bytes=x"]), "unknown index option: --fast");
}

#[test]
fn extensions_are_shown_comma_separated_or_none() {
    assert_eq!(minisearch::options::format_extensions(&[]), "none");
    assert_eq!(
        minisearch::options::format_extensions(&["md".to_string(), "rs".to_string()]),
        "md, rs"
    );
    assert_eq!(
        minisearch::options::format_extensions(IndexOptions::default().extensions()),
        "txt, md"
    );
}

#[test]
fn counts_that_fit_in_usize_are_converted() {
    assert_eq!(minisearch::format::usize_from_u64(7, "top_k"), Ok(7));
    if (usize::MAX as u64) < u64::MAX {
        assert_eq!(
            minisearch::format::usize_from_u64(u64::MAX, "limit"),
            Err("limit is too large".to_string())
        );
    }
}
