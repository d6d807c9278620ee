//! Document metadata used by the search engine.
use vstd::prelude::*;

use crate::query::scan_to_char;
use crate::query::lemma_scan_to_char_bounds;
use crate::text::{
    ascii_lowercase, ascii_lowercase_chars, chars_of, copy_range, trim, trim_chars,
    trim_start_char, trim_start_char_chars, string_from_chars,
};

verus! {

#[derive(Debug, Clone, PartialEq, Eq)]
pub struct DocumentMeta {
    pub id: usize,
    pub path: String,
    pub length: usize,
    pub content: String,
    pub extension: Option<String>,
    pub title: String,
    pub modified_unix_timestamp_secs: Option<u64>,
}

/// The value of an optional string.
pub open spec fn opt_view(s: Option<String>) -> Option<Seq<char>> {
    match s {
        Some(v) => Some(v@),
        None => None,
    }
}

/// The extension that std's `Path::extension` finds in a path: the part of
/// its file name after the last dot, if the name has a dot that is not its
/// first char.
pub uninterp spec fn path_extension(path: Seq<char>) -> Option<Seq<char>>;

/// The file stem that std's `Path::file_stem` finds in a path.
pub uninterp spec fn path_file_stem(path: Seq<char>) -> Option<Seq<char>>;

/// Calls std's `Path::extension` on `path`; the contract names its answer.
#[verifier::external_body]
pub(crate) fn infer_extension(path: &str) -> (r: Option<String>)
    ensures
        opt_view(r) == path_extension(path@),
{
    std::path::Path::new(path).extension().and_then(|value| value.to_str()).map(|value| value.to_string())
}

/// Calls std's `Path::file_stem` on `path`; the contract names its answer.
#[verifier::external_body]
fn file_stem(path: &str) -> (r: Option<String>)
    ensures
        opt_view(r) == path_file_stem(path@),
{
    std::path::Path::new(path).file_stem().and_then(|value| value.to_str()).map(|value| value.to_string())
}

/// An extension as the index keeps it: trimmed, without leading dots,
/// lowercased; none when nothing is left.
pub open spec fn normalized_extension(extension: Option<Seq<char>>) -> Option<Seq<char>> {
    match extension {
        Some(v) => {
            let n = ascii_lowercase(trim_start_char(trim(v), '.'));
            if n.len() == 0 {
                None
            } else {
                Some(n)
            }
        },
        None => None,
    }
}

/// std's `str::lines`: the text split at `\n`, each line without a `\r`
/// that ends it before the `\n`, with no line after a final `\n`.
pub open spec fn lines_from(s: Seq<char>, i: int) -> Seq<Seq<char>>
    decreases s.len() + 1 - i,
{
    if i < 0 || i >= s.len() {
        Seq::empty()
    } else {
        let e = scan_to_char(s, i, '\n');
        proof {
            lemma_scan_to_char_bounds(s, i, '\n');
        }
        let raw = s.subrange(i, e);
        let line = if e < s.len() && raw.len() > 0 && raw.last() == '\r' {
            raw.drop_last()
        } else {
            raw
        };
        seq![line] + lines_from(s, e + 1)
    }
}

/// The first line that is not blank, trimmed.
pub open spec fn first_nonblank_line(lines: Seq<Seq<char>>) -> Option<Seq<char>>
    decreases lines.len(),
{
    if lines.len() == 0 {
        None
    } else if trim(lines[0]).len() > 0 {
        Some(trim(lines[0]))
    } else {
        first_nonblank_line(lines.drop_first())
    }
}

/// The title of a Markdown-style heading line (`# Title`), or empty.
pub open spec fn heading_of(line: Option<Seq<char>>) -> Seq<char> {
    match line {
        Some(l) => if l.len() > 0 && l[0] == '#' {
            trim(trim_start_char(l.drop_first(), '#'))
        } else {
            Seq::empty()
        },
        None => Seq::empty(),
    }
}

/// The title inferred for a document: the heading of its first non-blank
/// line if that line is a heading, else the file stem of its path, else the
/// path itself.
pub open spec fn inferred_title(path: Seq<char>, content: Seq<char>) -> Seq<char> {
    let heading = heading_of(first_nonblank_line(lines_from(content, 0)));
    if heading.len() > 0 {
        heading
    } else {
        match path_file_stem(path) {
            Some(stem) => if stem.len() > 0 {
                stem
            } else {
                path
            },
            None => path,
        }
    }
}

/// The value of a document's metadata.
pub struct DocumentView {
    pub id: nat,
    pub path: Seq<char>,
    pub length: nat,
    pub content: Seq<char>,
    pub extension: Option<Seq<char>>,
    pub title: Seq<char>,
    pub modified_unix_timestamp_secs: Option<u64>,
}

impl View for DocumentMeta {
    type V = DocumentView;

    open spec fn view(&self) -> DocumentView {
        DocumentView {
            id: self.id as nat,
            path: self.path@,
            length: self.length as nat,
            content: self.content@,
            extension: opt_view(self.extension),
            title: self.title@,
            modified_unix_timestamp_secs: self.modified_unix_timestamp_secs,
        }
    }
}

/// A string holding all the chars of `v`.
fn string_of_chars(v: &Vec<char>) -> (s: String)
    ensures
        s@ == v@,
{
    let s = string_from_chars(v, 0, v.len());
    assert(v@.subrange(0, v@.len() as int) =~= v@);
    s
}

/// A copy of `s`.
fn copy_str(s: &str) -> (r: String)
    ensures
        r@ == s@,
{
    let chars = chars_of(s);
    string_of_chars(&chars)
}

/// Trims an extension, drops its leading dots and lowercases it; none when
/// nothing is left.
pub(crate) fn normalize_extension(extension: Option<String>) -> (r: Option<String>)
    ensures
        opt_view(r) == normalized_extension(opt_view(extension)),
{
    match extension {
        Some(value) => {
            let chars = chars_of(value.as_str());
            let normalized = ascii_lowercase_chars(&trim_start_char_chars(&trim_chars(&chars), '.'));
            if normalized.len() == 0 {
                None
            } else {
                Some(string_of_chars(&normalized))
            }
        },
        None => None,
    }
}

proof fn lemma_first_nonblank_line_cons(line: Seq<char>, rest: Seq<Seq<char>>)
    ensures
        first_nonblank_line(seq![line] + rest) == (if trim(line).len() > 0 {
            Some(trim(line))
        } else {
            first_nonblank_line(rest)
        }),
{
    assert((seq![line] + rest).drop_first() =~= rest);
    assert((seq![line] + rest)[0] == line);
}

/// The first non-blank line of `content`, trimmed.
fn first_nonblank_line_of(content: &str) -> (r: Option<Vec<char>>)
    ensures
        match r {
            Some(l) => first_nonblank_line(lines_from(content@, 0)) == Some(l@),
            None => first_nonblank_line(lines_from(content@, 0)) is None,
        },
{
    let ghost s = content@;
    let chars = chars_of(content);
    let n = chars.len();
    let mut i: usize = 0;
    while i < n
        invariant
            s == content@,
            chars@ == s,
            n == s.len(),
            i <= n,
            first_nonblank_line(lines_from(s, 0)) == first_nonblank_line(lines_from(s, i as int)),
        decreases n - i,
    {
        let mut e = i;
        proof {
            lemma_scan_to_char_bounds(s, i as int, '\n');
        }
        while e < n && chars[e] != '\n'
            invariant
                i <= e <= n,
                chars@ == s,
                n == s.len(),
                scan_to_char(s, i as int, '\n') == scan_to_char(s, e as int, '\n'),
            decreases n - e,
        {
            e = e + 1;
        }
        let raw = copy_range(&chars, i, e);
        let line = if e < n && raw.len() > 0 && raw[raw.len() - 1] == '\r' {
            copy_range(&raw, 0, raw.len() - 1)
        } else {
            raw
        };
        proof {
            let r = s.subrange(i as int, e as int);
            if e < n && r.len() > 0 && r.last() == '\r' {
                assert(r.subrange(0, r.len() - 1) =~= r.drop_last());
            }
            lemma_first_nonblank_line_cons(line@, lines_from(s, e + 1));
            assert(lines_from(s, i as int) == seq![line@] + lines_from(s, e + 1));
        }
        let trimmed = trim_chars(&line);
        assert(first_nonblank_line(lines_from(s, 0)) == (if trim(line@).len() > 0 {
            Some(trim(line@))
        } else {
            first_nonblank_line(lines_from(s, e + 1))
        }));
        if trimmed.len() > 0 {
            return Some(trimmed);
        }
        if e >= n {
            assert(lines_from(s, e + 1) =~= Seq::<Seq<char>>::empty());
            return None;
        }
        i = e + 1;
    }
    None
}

/// The title inferred for a document: the text of a `# Heading` first line,
/// else the file stem of its path, else its path.
fn infer_title(path: &str, content: &str) -> (title: String)
    ensures
        title@ == inferred_title(path@, content@),
{
    if let Some(line) = first_nonblank_line_of(content) {
        if line.len() > 0 && line[0] == '#' {
            let rest = copy_range(&line, 1, line.len());
            assert(line@.subrange(1, line@.len() as int) =~= line@.drop_first());
            let heading = trim_chars(&trim_start_char_chars(&rest, '#'));
            if heading.len() > 0 {
                return string_of_chars(&heading);
            }
        }
    }
    if let Some(stem) = file_stem(path) {
        if !stem.as_str().is_empty() {
            return stem;
        }
    }
    copy_str(path)
}

impl DocumentMeta {
    /// Metadata for a document whose extension and title are inferred from
    /// its path and content.
    pub fn new(id: usize, path: &str, length: usize, content: &str) -> (doc: Self)
        ensures
            doc@ == (DocumentView {
                id: id as nat,
                path: path@,
                length: length as nat,
                content: content@,
                extension: normalized_extension(path_extension(path@)),
                title: inferred_title(path@, content@),
                modified_unix_timestamp_secs: None,
            }),
    {
        proof {
            reveal_strlit("");
        }
        Self::with_metadata(id, path, length, content, None, "", None)
    }

    /// Metadata for a document. A missing extension is inferred from the
    /// path; the extension is trimmed, stripped of leading dots and
    /// lowercased, and dropped when nothing is left. A blank title is
    /// replaced by one inferred from the content or the path.
    pub fn with_metadata(
        id: usize,
        path: &str,
        length: usize,
        content: &str,
        extension: Option<String>,
        title: &str,
        modified_unix_timestamp_secs: Option<u64>,
    ) -> (doc: Self)
        ensures
            doc@ == (DocumentView {
                id: id as nat,
                path: path@,
                length: length as nat,
                content: content@,
                extension: normalized_extension(
                    match opt_view(extension) {
                        Some(e) => Some(e),
                        None => path_extension(path@),
                    },
                ),
                title: if trim(title@).len() == 0 {
                    inferred_title(path@, content@)
                } else {
                    title@
                },
                modified_unix_timestamp_secs,
            }),
    {
        let chosen = match extension {
            Some(value) => Some(value),
            None => infer_extension(path),
        };
        let extension = normalize_extension(chosen);
        let title_chars = chars_of(title);
        let title = if trim_chars(&title_chars).len() == 0 {
            infer_title(path, content)
        } else {
            copy_str(title)
        };
        DocumentMeta {
            id,
            path: copy_str(path),
            length,
            content: copy_str(content),
            extension,
            title,
            modified_unix_timestamp_secs,
        }
    }
}

} // verus!
