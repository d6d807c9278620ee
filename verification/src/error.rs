//! The error type of indexing, searching and persistence.
use vstd::prelude::*;

verus! {

#[verifier::external_type_specification]
#[verifier::external_body]
pub struct ExIoError(std::io::Error);

/// Error type used by indexing, searching, and persistence APIs.
#[derive(Debug)]
pub enum SearchError {
    Io(std::io::Error),
    Parse(String),
    InvalidArgument(String),
}

/// The text std's `Display` gives an I/O error. It depends on the error's
/// kind and on the operating system's description of it, so nothing is
/// stated of it.
#[verifier::external_body]
fn io_error_text(error: &std::io::Error) -> (text: String) {
    error.to_string()
}

/// `prefix` followed by the chars of `rest`.
fn prefixed(prefix: &str, rest: &str) -> (text: String)
    ensures
        text@ == prefix@ + rest@,
{
    let mut text = prefix.to_owned();
    text.append(rest);
    text
}

impl SearchError {
    /// The error as a message for people: a prefix that names the kind of
    /// error, then what went wrong.
    pub fn message(&self) -> (text: String)
        ensures
            match self {
                SearchError::Io(_) => "I/O error: "@.is_prefix_of(text@),
                SearchError::Parse(m) => text@ == "Parse error: "@ + m@,
                SearchError::InvalidArgument(m) => text@ == "Invalid argument: "@ + m@,
            },
    {
        match self {
            SearchError::Io(error) => {
                let detail = io_error_text(error);
                let text = prefixed("I/O error: ", detail.as_str());
                assert("I/O error: "@.is_prefix_of(text@)) by {
                    assert(text@.subrange(0, "I/O error: "@.len() as int) =~= "I/O error: "@);
                }
                text
            },
            SearchError::Parse(message) => prefixed("Parse error: ", message.as_str()),
            SearchError::InvalidArgument(message) => prefixed("Invalid argument: ", message.as_str()),
        }
    }
}

impl From<std::io::Error> for SearchError {
    fn from(value: std::io::Error) -> (error: Self) {
        SearchError::Io(value)
    }
}

impl vstd::std_specs::convert::FromSpecImpl<std::io::Error> for SearchError {
    open spec fn obeys_from_spec() -> bool {
        true
    }

    open spec fn from_spec(v: std::io::Error) -> Self {
        SearchError::Io(v)
    }
}

} // verus!
