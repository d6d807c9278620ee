//! Options that control which files a directory index takes in.
use vstd::prelude::*;

use crate::document::{infer_extension, normalize_extension, normalized_extension, path_extension};
use crate::error::SearchError;
use crate::format::{split_chars, split_on};
use crate::query::strings_view;
use crate::search::starts_with;
use crate::storage::{same_chars, string_of};
use crate::text::{
    ascii_lowercase, ascii_lowercase_chars, chars_of, copy_range, decimal_value, digit_value,
    is_ascii_digit, string_from_chars,
};

verus! {

/// Directory indexing options.
#[derive(Debug, Clone, PartialEq, Eq)]
pub struct IndexOptions {
    extensions: Vec<String>,
    max_file_size_bytes: Option<u64>,
}

/// The value of indexing options.
pub struct IndexOptionsView {
    pub extensions: Seq<Seq<char>>,
    pub max_file_size_bytes: Option<u64>,
}

impl View for IndexOptions {
    type V = IndexOptionsView;

    closed spec fn view(&self) -> IndexOptionsView {
        IndexOptionsView {
            extensions: strings_view(self.extensions@),
            max_file_size_bytes: self.max_file_size_bytes,
        }
    }
}

/// The extensions kept from a list given by a caller: each one normalized
/// as a document's extension is, the empty ones dropped, and only the first
/// of equal ones kept, in the order given.
pub open spec fn extension_list(given: Seq<Seq<char>>) -> Seq<Seq<char>>
    decreases given.len(),
{
    if given.len() == 0 {
        Seq::empty()
    } else {
        let kept = extension_list(given.drop_last());
        match normalized_extension(Some(given.last())) {
            Some(e) => if kept.contains(e) {
                kept
            } else {
                kept.push(e)
            },
            None => kept,
        }
    }
}

/// The extensions indexed when no others are chosen.
pub open spec fn default_extensions() -> Seq<Seq<char>> {
    seq![seq!['t', 'x', 't'], seq!['m', 'd']]
}

/// Whether a file at `path` has one of `extensions`, compared without
/// regard to ASCII case.
pub open spec fn supported_path(path: Seq<char>, extensions: Seq<Seq<char>>) -> bool {
    match path_extension(path) {
        Some(e) => extensions.contains(ascii_lowercase(e)),
        None => false,
    }
}

/// Whether a file of `size` bytes is within the limit.
pub open spec fn size_allowed(size: u64, max: Option<u64>) -> bool {
    match max {
        Some(m) => size <= m,
        None => true,
    }
}

/// No extension occurs twice.
pub open spec fn distinct_strings(s: Seq<Seq<char>>) -> bool {
    forall|i: int, j: int| 0 <= i < j < s.len() ==> s[i] != s[j]
}

/// A list built by `extension_list` has no empty and no repeated extension.
pub proof fn lemma_extension_list_distinct(given: Seq<Seq<char>>)
    ensures
        distinct_strings(extension_list(given)),
        forall|i: int| 0 <= i < extension_list(given).len() ==> #[trigger] extension_list(given)[i].len() > 0,
    decreases given.len(),
{
    if given.len() > 0 {
        lemma_extension_list_distinct(given.drop_last());
        let kept = extension_list(given.drop_last());
        match normalized_extension(Some(given.last())) {
            Some(e) => {
                if !kept.contains(e) {
                    assert forall|i: int, j: int| 0 <= i < j < kept.push(e).len() implies kept.push(e)[i]
                        != kept.push(e)[j] by {
                        if j == kept.len() {
                            assert(kept[i] == kept.push(e)[i]);
                        }
                    }
                }
            },
            None => {},
        }
    }
}

/// Whether `v` holds a string equal to `s`.
fn contains_string(v: &Vec<String>, s: &String) -> (b: bool)
    ensures
        b == strings_view(v@).contains(s@),
{
    let mut i: usize = 0;
    while i < v.len()
        invariant
            i <= v@.len(),
            forall|j: int| 0 <= j < i ==> v@[j]@ != s@,
        decreases v@.len() - i,
    {
        if v[i] == *s {
            assert(strings_view(v@)[i as int] == s@);
            return true;
        }
        i = i + 1;
    }
    proof {
        if strings_view(v@).contains(s@) {
            let j = choose|j: int| 0 <= j < strings_view(v@).len() && strings_view(v@)[j] == s@;
            assert(v@[j]@ == s@);
        }
    }
    false
}

impl IndexOptions {
    /// Creates the default indexing options: `.txt` and `.md` files, of any
    /// size.
    pub fn new() -> (options: Self)
        ensures
            options@.extensions == default_extensions(),
            options@.max_file_size_bytes is None,
    {
        proof {
            reveal_strlit("txt");
            reveal_strlit("md");
        }
        let txt = "txt".to_owned();
        let md = "md".to_owned();
        assert(txt@ =~= seq!['t', 'x', 't']);
        assert(md@ =~= seq!['m', 'd']);
        let mut extensions: Vec<String> = Vec::new();
        extensions.push(txt);
        extensions.push(md);
        let options = IndexOptions { extensions, max_file_size_bytes: None };
        assert(options@.extensions =~= default_extensions());
        options
    }

    /// Replaces the supported file extensions. Each one is trimmed, loses
    /// its leading dots and is lowercased; empty ones are dropped and a
    /// repeated one is kept once, where it first occurs.
    pub fn with_extensions(self, extensions: &[&str]) -> (options: Self)
        ensures
            options@.extensions == extension_list(extensions@.map_values(|e: &str| e@)),
            options@.max_file_size_bytes == self@.max_file_size_bytes,
    {
        let ghost given = extensions@.map_values(|e: &str| e@);
        let mut normalized: Vec<String> = Vec::new();
        let mut i: usize = 0;
        while i < extensions.len()
            invariant
                i <= extensions@.len(),
                given == extensions@.map_values(|e: &str| e@),
                strings_view(normalized@) == extension_list(given.take(i as int)),
            decreases extensions@.len() - i,
        {
            let value = chars_of(extensions[i]);
            let owned = string_from_chars(&value, 0, value.len());
            assert(value@.subrange(0, value@.len() as int) =~= value@);
            assert(given.take(i + 1).drop_last() =~= given.take(i as int));
            assert(given.take(i + 1).last() == extensions@[i as int]@);
            match normalize_extension(Some(owned)) {
                Some(extension) => {
                    if !contains_string(&normalized, &extension) {
                        normalized.push(extension);
                        assert(strings_view(normalized@) =~= extension_list(given.take(i as int)).push(
                            extension@,
                        ));
                    }
                },
                None => {},
            }
            i = i + 1;
        }
        assert(given.take(extensions@.len() as int) =~= given);
        IndexOptions { extensions: normalized, max_file_size_bytes: self.max_file_size_bytes }
    }

    /// Skips files larger than the provided byte size.
    pub fn with_max_file_size_bytes(self, max_file_size_bytes: u64) -> (options: Self)
        ensures
            options@.extensions == self@.extensions,
            options@.max_file_size_bytes == Some(max_file_size_bytes),
    {
        IndexOptions { extensions: self.extensions, max_file_size_bytes: Some(max_file_size_bytes) }
    }

    /// Returns the normalized extensions used while indexing.
    pub fn extensions(&self) -> (extensions: &[String])
        ensures
            strings_view(extensions@) == self@.extensions,
    {
        self.extensions.as_slice()
    }

    /// Returns the configured maximum file size, if any.
    pub fn max_file_size_bytes(&self) -> (max: Option<u64>)
        ensures
            max == self@.max_file_size_bytes,
    {
        self.max_file_size_bytes
    }

    /// Whether a file at `path` is indexed: its extension, lowercased, is
    /// one of the options' extensions.
    pub fn is_supported_file(&self, path: &str) -> (b: bool)
        ensures
            b == supported_path(path@, self@.extensions),
    {
        match infer_extension(path) {
            Some(extension) => {
                let chars = chars_of(extension.as_str());
                let lowered = ascii_lowercase_chars(&chars);
                let lowered = string_from_chars(&lowered, 0, lowered.len());
                assert(lowered@ =~= ascii_lowercase(extension@));
                contains_string(&self.extensions, &lowered)
            },
            None => false,
        }
    }

    /// Whether a file of `file_size` bytes is within the size limit.
    pub fn accepts_file_size(&self, file_size: u64) -> (b: bool)
        ensures
            b == size_allowed(file_size, self@.max_file_size_bytes),
    {
        match self.max_file_size_bytes {
            Some(max) => file_size <= max,
            None => true,
        }
    }
}

impl Default for IndexOptions {
    fn default() -> (options: Self)
        ensures
            options@.extensions == default_extensions(),
            options@.max_file_size_bytes is None,
    {
        IndexOptions::new()
    }
}

/// std's `u64::from_str`: an optional `+`, then one or more ASCII digits
/// whose value fits in `u64`.
pub open spec fn u64_text_value(s: Seq<char>) -> Option<nat> {
    let digits = unsigned_digits(s);
    if digits.len() > 0 && all_ascii_digits(digits) && decimal_value(digits) <= u64::MAX {
        Some(decimal_value(digits))
    } else {
        None
    }
}

/// The digits of an unsigned number: the text after an optional `+`.
pub open spec fn unsigned_digits(s: Seq<char>) -> Seq<char> {
    if s.len() > 0 && s[0] == '+' {
        s.skip(1)
    } else {
        s
    }
}

/// Every char is an ASCII digit.
pub open spec fn all_ascii_digits(s: Seq<char>) -> bool {
    forall|i: int| 0 <= i < s.len() ==> is_ascii_digit(#[trigger] s[i])
}

/// The outcome of reading the options of the `index` command.
pub enum IndexArgs {
    Options(IndexOptionsView),
    Invalid(Seq<char>),
}

/// The option that sets the extensions.
pub open spec fn ext_option() -> Seq<char> {
    seq!['-', '-', 'e', 'x', 't', '=']
}

/// The option that sets the size limit.
pub open spec fn max_bytes_option() -> Seq<char> {
    seq!['-', '-', 'm', 'a', 'x', '-', 'b', 'y', 't', 'e', 's', '=']
}

/// The options given on the command line of the `index` command, applied
/// in order to the default options: `--ext=a,b` sets the extensions and
/// `--max-bytes=n` the size limit; anything else is refused with a message.
pub open spec fn apply_index_args(args: Seq<Seq<char>>) -> IndexArgs
    decreases args.len(),
{
    if args.len() == 0 {
        IndexArgs::Options(IndexOptionsView { extensions: default_extensions(), max_file_size_bytes: None })
    } else {
        match apply_index_args(args.drop_last()) {
            IndexArgs::Invalid(m) => IndexArgs::Invalid(m),
            IndexArgs::Options(o) => {
                let a = args.last();
                if starts_with(a, ext_option()) {
                    IndexArgs::Options(IndexOptionsView {
                        extensions: extension_list(split_on(a.skip(6), ',')),
                        max_file_size_bytes: o.max_file_size_bytes,
                    })
                } else if starts_with(a, max_bytes_option()) {
                    match u64_text_value(a.skip(12)) {
                        Some(v) => IndexArgs::Options(IndexOptionsView {
                            extensions: o.extensions,
                            max_file_size_bytes: Some(v as u64),
                        }),
                        None => IndexArgs::Invalid("invalid value for --max-bytes: "@ + a.skip(12)),
                    }
                } else {
                    IndexArgs::Invalid("unknown index option: "@ + a)
                }
            },
        }
    }
}

/// Reads a `u64` as std's `u64::from_str` does.
fn parse_u64(v: &Vec<char>) -> (r: Option<u64>)
    ensures
        match r {
            Some(n) => u64_text_value(v@) == Some(n as nat),
            None => u64_text_value(v@) is None,
        },
{
    let start: usize = if v.len() > 0 && v[0] == '+' {
        1
    } else {
        0
    };
    let ghost digits = v@.skip(start as int);
    assert(digits =~= unsigned_digits(v@));
    if start >= v.len() {
        assert(digits.len() == 0);
        return None;
    }
    let mut value: u64 = 0;
    let mut i: usize = start;
    while i < v.len()
        invariant
            start <= i <= v@.len(),
            digits == v@.skip(start as int),
            digits == unsigned_digits(v@),
            forall|j: int| start <= j < i ==> is_ascii_digit(#[trigger] v@[j]),
            value == decimal_value(digits.take(i - start)),
        decreases v@.len() - i,
    {
        let c = v[i];
        assert(digits.take(i - start + 1).drop_last() =~= digits.take(i - start));
        assert(digits[i - start] == c);
        if !('0' <= c && c <= '9') {
            assert(!is_ascii_digit(digits[i - start]));
            assert(!all_ascii_digits(digits));
            return None;
        }
        let d = (c as u32 - '0' as u32) as u64;
        assert(d == digit_value(c));
        if value > (u64::MAX - d) / 10 {
            proof {
                lemma_decimal_value_prefix_u64(digits, i - start + 1);
            }
            return None;
        }
        value = value * 10 + d;
        i = i + 1;
    }
    assert(digits.take(v@.len() - start) =~= digits);
    assert forall|j: int| 0 <= j < digits.len() implies is_ascii_digit(#[trigger] digits[j]) by {
        assert(digits[j] == v@[j + start]);
    }
    assert(all_ascii_digits(digits));
    Some(value)
}

/// The value of a run of digits is at least the value of any prefix of it.
proof fn lemma_decimal_value_prefix_u64(s: Seq<char>, k: int)
    requires
        0 <= k <= s.len(),
    ensures
        decimal_value(s.take(k)) <= decimal_value(s),
    decreases s.len() - k,
{
    if k < s.len() {
        lemma_decimal_value_prefix_u64(s, k + 1);
        assert(s.take(k + 1).drop_last() =~= s.take(k));
    } else {
        assert(s.take(k) =~= s);
    }
}

/// Whether `v` starts with `prefix`.
fn has_prefix(v: &Vec<char>, prefix: &Vec<char>) -> (b: bool)
    ensures
        b == starts_with(v@, prefix@),
{
    if prefix.len() > v.len() {
        return false;
    }
    let head = copy_range(v, 0, prefix.len());
    assert(head@ =~= v@.take(prefix@.len() as int));
    same_chars(&head, prefix)
}

/// `prefix` followed by the chars of `rest`.
fn message_with(prefix: &str, rest: &Vec<char>) -> (m: String)
    ensures
        m@ == prefix@ + rest@,
{
    let mut m = prefix.to_owned();
    m.append(string_of(rest).as_str());
    m
}

/// Reads the options of the `index` command: `--ext=txt,md,rs` replaces the
/// extensions, `--max-bytes=n` sets the size limit; any other argument, or a
/// size that is not a `u64`, is refused.
pub fn parse_index_options(args: &[String]) -> (r: Result<IndexOptions, SearchError>)
    ensures
        match apply_index_args(strings_view(args@)) {
            IndexArgs::Options(o) => r matches Ok(options) && options@ == o,
            IndexArgs::Invalid(m) => r matches Err(SearchError::InvalidArgument(message)) && message@ == m,
        },
{
    let ghost given = strings_view(args@);
    proof {
        reveal_strlit("--ext=");
        reveal_strlit("--max-bytes=");
    }
    let ext = chars_of("--ext=");
    let max_bytes = chars_of("--max-bytes=");
    assert(ext@ =~= ext_option());
    assert(max_bytes@ =~= max_bytes_option());
    let mut options = IndexOptions::new();
    assert(given.take(0) =~= Seq::<Seq<char>>::empty());
    for i in 0..args.len()
        invariant
            given == strings_view(args@),
            ext@ == ext_option(),
            max_bytes@ == max_bytes_option(),
            apply_index_args(given.take(i as int)) == IndexArgs::Options(options@),
    {
        let arg = chars_of(args[i].as_str());
        assert(given.take(i + 1).drop_last() =~= given.take(i as int));
        assert(given.take(i + 1).last() == arg@);
        if has_prefix(&arg, &ext) {
            let rest = copy_range(&arg, 6, arg.len());
            assert(rest@ =~= arg@.skip(6));
            let pieces = split_chars(&rest, ',');
            let mut owned: Vec<String> = Vec::new();
            for k in 0..pieces.len()
                invariant
                    owned@.len() == k,
                    forall|j: int| 0 <= j < k ==> (#[trigger] owned@[j])@ == pieces@[j]@,
            {
                owned.push(string_of(&pieces[k]));
            }
            let mut names: Vec<&str> = Vec::new();
            for k in 0..owned.len()
                invariant
                    names@.len() == k,
                    forall|j: int| 0 <= j < k ==> (#[trigger] names@[j])@ == owned@[j]@,
            {
                names.push(owned[k].as_str());
            }
            assert(names@.map_values(|e: &str| e@) =~= split_on(rest@, ','));
            options = options.with_extensions(names.as_slice());
        } else if has_prefix(&arg, &max_bytes) {
            let value = copy_range(&arg, 12, arg.len());
            assert(value@ =~= arg@.skip(12));
            match parse_u64(&value) {
                Some(n) => {
                    options = options.with_max_file_size_bytes(n);
                },
                None => {
                    proof {
                        lemma_index_args_fail(given, i + 1);
                    }
                    return Err(SearchError::InvalidArgument(message_with("invalid value for --max-bytes: ", &value)));
                },
            }
        } else {
            proof {
                lemma_index_args_fail(given, i + 1);
            }
            return Err(SearchError::InvalidArgument(message_with("unknown index option: ", &arg)));
        }
    }
    assert(given.take(args@.len() as int) =~= given);
    Ok(options)
}

/// Once an argument is refused, the whole command line is refused with its
/// message.
proof fn lemma_index_args_fail(args: Seq<Seq<char>>, k: int)
    requires
        0 <= k <= args.len(),
        apply_index_args(args.take(k)) is Invalid,
    ensures
        apply_index_args(args) == apply_index_args(args.take(k)),
    decreases args.len() - k,
{
    if k < args.len() {
        assert(args.take(k + 1).drop_last() =~= args.take(k));
        lemma_index_args_fail(args, k + 1);
    } else {
        assert(args.take(k) =~= args);
    }
}

/// The extensions for display: separated by `, `, or `none` when there are
/// none.
pub fn format_extensions(extensions: &[String]) -> (text: String)
    ensures
        text@ == if extensions@.len() == 0 {
            "none"@
        } else {
            crate::format::join_with_text(strings_view(extensions@), ", "@)
        },
{
    if extensions.len() == 0 {
        return "none".to_owned();
    }
    let ghost parts = strings_view(extensions@);
    let mut text = String::new();
    for i in 0..extensions.len()
        invariant
            parts == strings_view(extensions@),
            text@ == crate::format::join_with_text(parts.take(i as int), ", "@),
    {
        if i > 0 {
            text.append(", ");
        }
        text.append(extensions[i].as_str());
        proof {
            let t = parts.take(i + 1);
            assert(t.drop_last() =~= parts.take(i as int));
            assert(t.last() == extensions@[i as int]@);
            if i == 0 {
                assert(crate::format::join_with_text(parts.take(0), ", "@) =~= Seq::<char>::empty());
                assert(crate::format::join_with_text(t, ", "@) == t[0]);
            }
            assert(text@ =~= crate::format::join_with_text(t, ", "@));
        }
    }
    assert(parts.take(extensions@.len() as int) =~= parts);
    text
}

} // verus!
