//! Query parsing.
//!
//! A query is a sequence of whitespace-separated items. An item may start
//! with `+` (required) or `-` (excluded). A quoted item `"..."` is a phrase,
//! optionally followed by `~N` for its slop. Any other item is a metadata
//! filter (`ext:`, `path:`, `title:`), a fuzzy term (`term~N`), or plain text
//! that contributes its tokens as terms.
use vstd::prelude::*;

use crate::text::{
    ascii_lowercase, ascii_lowercase_chars, chars_of, copy_range, decimal_value,
    digit_value, find_first, find_last, is_ascii_digit, is_whitespace_char, lemma_skip_whitespace_bounds,
    skip_whitespace, skip_whitespace_from, string_from_chars, trim, trim_chars, trim_start_char,
    trim_start_char_chars, whitespace,
};
use crate::tokenizer::{token_terms, tokenize};

verus! {

#[derive(Debug, Clone, PartialEq, Eq)]
pub enum MetadataField {
    Extension,
    Path,
    Title,
}

#[derive(Debug, Clone, PartialEq, Eq)]
pub struct MetadataFilter {
    pub field: MetadataField,
    pub value: String,
}

#[derive(Debug, Clone, PartialEq, Eq)]
pub struct FuzzyTermQuery {
    pub term: String,
    pub max_distance: usize,
}

#[derive(Debug, Clone, PartialEq, Eq)]
pub struct PhraseQuery {
    pub terms: Vec<String>,
    pub slop: usize,
}

#[derive(Debug, Clone, PartialEq, Eq)]
pub struct ParsedQuery {
    pub optional_terms: Vec<String>,
    pub required_terms: Vec<String>,
    pub excluded_terms: Vec<String>,
    pub optional_fuzzy_terms: Vec<FuzzyTermQuery>,
    pub required_fuzzy_terms: Vec<FuzzyTermQuery>,
    pub excluded_fuzzy_terms: Vec<FuzzyTermQuery>,
    pub required_metadata_filters: Vec<MetadataFilter>,
    pub excluded_metadata_filters: Vec<MetadataFilter>,
    pub phrases: Vec<PhraseQuery>,
    pub required_phrases: Vec<PhraseQuery>,
    pub excluded_phrases: Vec<PhraseQuery>,
}

pub struct MetadataFilterView {
    pub field: MetadataField,
    pub value: Seq<char>,
}

pub struct FuzzyTermView {
    pub term: Seq<char>,
    pub max_distance: nat,
}

#[verifier::ext_equal]
pub struct PhraseView {
    pub terms: Seq<Seq<char>>,
    pub slop: nat,
}

#[verifier::ext_equal]
pub struct ParsedQueryView {
    pub optional_terms: Seq<Seq<char>>,
    pub required_terms: Seq<Seq<char>>,
    pub excluded_terms: Seq<Seq<char>>,
    pub optional_fuzzy_terms: Seq<FuzzyTermView>,
    pub required_fuzzy_terms: Seq<FuzzyTermView>,
    pub excluded_fuzzy_terms: Seq<FuzzyTermView>,
    pub required_metadata_filters: Seq<MetadataFilterView>,
    pub excluded_metadata_filters: Seq<MetadataFilterView>,
    pub phrases: Seq<PhraseView>,
    pub required_phrases: Seq<PhraseView>,
    pub excluded_phrases: Seq<PhraseView>,
}

/// The values of a sequence of strings.
pub open spec fn strings_view(v: Seq<String>) -> Seq<Seq<char>> {
    v.map_values(|t: String| t@)
}

impl View for MetadataFilter {
    type V = MetadataFilterView;

    open spec fn view(&self) -> MetadataFilterView {
        MetadataFilterView { field: self.field, value: self.value@ }
    }
}

impl View for FuzzyTermQuery {
    type V = FuzzyTermView;

    open spec fn view(&self) -> FuzzyTermView {
        FuzzyTermView { term: self.term@, max_distance: self.max_distance as nat }
    }
}

impl View for PhraseQuery {
    type V = PhraseView;

    open spec fn view(&self) -> PhraseView {
        PhraseView { terms: strings_view(self.terms@), slop: self.slop as nat }
    }
}

impl View for ParsedQuery {
    type V = ParsedQueryView;

    open spec fn view(&self) -> ParsedQueryView {
        ParsedQueryView {
            optional_terms: strings_view(self.optional_terms@),
            required_terms: strings_view(self.required_terms@),
            excluded_terms: strings_view(self.excluded_terms@),
            optional_fuzzy_terms: self.optional_fuzzy_terms@.map_values(|q: FuzzyTermQuery| q@),
            required_fuzzy_terms: self.required_fuzzy_terms@.map_values(|q: FuzzyTermQuery| q@),
            excluded_fuzzy_terms: self.excluded_fuzzy_terms@.map_values(|q: FuzzyTermQuery| q@),
            required_metadata_filters: self.required_metadata_filters@.map_values(
                |f: MetadataFilter| f@,
            ),
            excluded_metadata_filters: self.excluded_metadata_filters@.map_values(
                |f: MetadataFilter| f@,
            ),
            phrases: self.phrases@.map_values(|p: PhraseQuery| p@),
            required_phrases: self.required_phrases@.map_values(|p: PhraseQuery| p@),
            excluded_phrases: self.excluded_phrases@.map_values(|p: PhraseQuery| p@),
        }
    }
}

/// The query with nothing in it.
pub open spec fn empty_query() -> ParsedQueryView {
    ParsedQueryView {
        optional_terms: Seq::empty(),
        required_terms: Seq::empty(),
        excluded_terms: Seq::empty(),
        optional_fuzzy_terms: Seq::empty(),
        required_fuzzy_terms: Seq::empty(),
        excluded_fuzzy_terms: Seq::empty(),
        required_metadata_filters: Seq::empty(),
        excluded_metadata_filters: Seq::empty(),
        phrases: Seq::empty(),
        required_phrases: Seq::empty(),
        excluded_phrases: Seq::empty(),
    }
}

impl Default for ParsedQuery {
    fn default() -> (q: Self)
        ensures
            q@ == empty_query(),
    {
        let q = ParsedQuery {
            optional_terms: Vec::new(),
            required_terms: Vec::new(),
            excluded_terms: Vec::new(),
            optional_fuzzy_terms: Vec::new(),
            required_fuzzy_terms: Vec::new(),
            excluded_fuzzy_terms: Vec::new(),
            required_metadata_filters: Vec::new(),
            excluded_metadata_filters: Vec::new(),
            phrases: Vec::new(),
            required_phrases: Vec::new(),
            excluded_phrases: Vec::new(),
        };
        assert(q@ =~= empty_query());
        q
    }
}

/// How an item of a query is marked.
pub enum Sign {
    Plain,
    Required,
    Excluded,
}

/// One item of a query, as the text splits into them.
pub enum QueryItem {
    Phrase { sign: Sign, text: Seq<char>, slop: nat },
    Word { sign: Sign, text: Seq<char> },
}

/// The first index at or after `i` whose char is `c`, or the end of `s`.
pub open spec fn scan_to_char(s: Seq<char>, i: int, c: char) -> int
    decreases s.len() - i,
{
    if 0 <= i < s.len() && s[i] != c {
        scan_to_char(s, i + 1, c)
    } else {
        i
    }
}

/// The first index at or after `i` whose char is whitespace, or the end of `s`.
pub open spec fn scan_to_whitespace(s: Seq<char>, i: int) -> int
    decreases s.len() - i,
{
    if 0 <= i < s.len() && !whitespace(s[i]) {
        scan_to_whitespace(s, i + 1)
    } else {
        i
    }
}

/// The first index at or after `i` whose char is not an ASCII digit, or the
/// end of `s`.
pub open spec fn scan_digits(s: Seq<char>, i: int) -> int
    decreases s.len() - i,
{
    if 0 <= i < s.len() && is_ascii_digit(s[i]) {
        scan_digits(s, i + 1)
    } else {
        i
    }
}

/// `v`, or `usize::MAX` where `v` is larger.
pub open spec fn saturate(v: nat) -> nat {
    if v > usize::MAX {
        usize::MAX as nat
    } else {
        v
    }
}

/// The slop written right after a phrase that ends before index `i`: `~`
/// and its digits (saturated to `usize::MAX`), or 0 when no `~` follows;
/// and the index after it.
pub open spec fn slop_at(s: Seq<char>, i: int) -> (nat, int) {
    if 0 <= i < s.len() && s[i] == '~' {
        let e = scan_digits(s, i + 1);
        (saturate(decimal_value(s.subrange(i + 1, e))), e)
    } else {
        (0, i)
    }
}

/// The sign an item starts with at index `j`, and the index after it.
pub open spec fn sign_at(s: Seq<char>, j: int) -> (Sign, int) {
    if 0 <= j < s.len() && s[j] == '+' {
        (Sign::Required, j + 1)
    } else if 0 <= j < s.len() && s[j] == '-' {
        (Sign::Excluded, j + 1)
    } else {
        (Sign::Plain, j)
    }
}

/// The item whose sign has been read and whose text starts at index `k`,
/// and the index after it.
pub open spec fn item_after_sign(s: Seq<char>, sign: Sign, k: int) -> (QueryItem, int) {
    if 0 <= k < s.len() && s[k] == '"' {
        let e = scan_to_char(s, k + 1, '"');
        let after = if e < s.len() {
            e + 1
        } else {
            e
        };
        let (slop, m) = slop_at(s, after);
        (QueryItem::Phrase { sign, text: s.subrange(k + 1, e), slop }, m)
    } else {
        let e = scan_to_whitespace(s, k);
        (QueryItem::Word { sign, text: s.subrange(k, e) }, e)
    }
}

/// The item that starts at index `j`, and the index after it.
pub open spec fn item_at(s: Seq<char>, j: int) -> (QueryItem, int) {
    item_after_sign(s, sign_at(s, j).0, sign_at(s, j).1)
}

pub proof fn lemma_scan_to_char_bounds(s: Seq<char>, i: int, c: char)
    requires
        0 <= i <= s.len(),
    ensures
        i <= scan_to_char(s, i, c) <= s.len(),
        scan_to_char(s, i, c) < s.len() ==> s[scan_to_char(s, i, c)] == c,
    decreases s.len() - i,
{
    if i < s.len() && s[i] != c {
        lemma_scan_to_char_bounds(s, i + 1, c);
    }
}

pub proof fn lemma_scan_to_whitespace_bounds(s: Seq<char>, i: int)
    requires
        0 <= i <= s.len(),
    ensures
        i <= scan_to_whitespace(s, i) <= s.len(),
        i < s.len() && !whitespace(s[i]) ==> i < scan_to_whitespace(s, i),
    decreases s.len() - i,
{
    if i < s.len() && !whitespace(s[i]) {
        lemma_scan_to_whitespace_bounds(s, i + 1);
    }
}

pub proof fn lemma_scan_digits_bounds(s: Seq<char>, i: int)
    requires
        0 <= i <= s.len(),
    ensures
        i <= scan_digits(s, i) <= s.len(),
        forall|j: int| i <= j < scan_digits(s, i) ==> is_ascii_digit(#[trigger] s[j]),
    decreases s.len() - i,
{
    if i < s.len() && is_ascii_digit(s[i]) {
        lemma_scan_digits_bounds(s, i + 1);
    }
}

/// An item always moves past its first char.
pub proof fn lemma_item_at_advances(s: Seq<char>, j: int)
    requires
        0 <= j < s.len(),
        !whitespace(s[j]),
    ensures
        j < item_at(s, j).1 <= s.len(),
{
    let (sign, k) = sign_at(s, j);
    if 0 <= k < s.len() && s[k] == '"' {
        lemma_scan_to_char_bounds(s, k + 1, '"');
        let e = scan_to_char(s, k + 1, '"');
        let after = if e < s.len() {
            e + 1
        } else {
            e
        };
        if 0 <= after < s.len() && s[after] == '~' {
            lemma_scan_digits_bounds(s, after + 1);
        }
    } else {
        lemma_scan_to_whitespace_bounds(s, k);
    }
}

/// The items of `s` from index `i` on.
pub open spec fn query_items_from(s: Seq<char>, i: int) -> Seq<QueryItem>
    decreases s.len() - i,
{
    let j = skip_whitespace(s, i);
    if i < 0 || i > s.len() || j >= s.len() {
        Seq::empty()
    } else {
        proof {
            lemma_skip_whitespace_bounds(s, i);
            lemma_item_at_advances(s, j);
        }
        seq![item_at(s, j).0] + query_items_from(s, item_at(s, j).1)
    }
}

/// The items of a query text.
pub open spec fn query_items(s: Seq<char>) -> Seq<QueryItem> {
    query_items_from(s, 0)
}

/// `v` without one pair of surrounding double quotes, if it has them.
pub open spec fn strip_optional_quotes(v: Seq<char>) -> Seq<char> {
    if v.len() >= 2 && v[0] == '"' && v.last() == '"' {
        v.subrange(1, v.len() - 1)
    } else {
        v
    }
}

/// The metadata filter that a word spells, if any: `field:value` where the
/// field is `ext`, `path` or `title` in any ASCII case and the value, once
/// stripped of surrounding quotes, is not empty. An extension is trimmed,
/// stripped of leading dots and lowercased.
pub open spec fn metadata_filter_of(t: Seq<char>) -> Option<MetadataFilterView> {
    match t.index_of_first(':') {
        None => None,
        Some(c) => {
            let field = ascii_lowercase(t.take(c));
            let value = strip_optional_quotes(t.skip(c + 1));
            if value.len() == 0 {
                None
            } else if field == seq!['e', 'x', 't'] {
                let normalized = ascii_lowercase(trim_start_char(trim(value), '.'));
                if normalized.len() == 0 {
                    None
                } else {
                    Some(MetadataFilterView { field: MetadataField::Extension, value: normalized })
                }
            } else if field == seq!['p', 'a', 't', 'h'] {
                Some(MetadataFilterView { field: MetadataField::Path, value })
            } else if field == seq!['t', 'i', 't', 'l', 'e'] {
                Some(MetadataFilterView { field: MetadataField::Title, value })
            } else {
                None
            }
        },
    }
}

/// The fuzzy term that a word spells, if any: `text~digits`, where the text
/// before the last `~` is exactly one token and the digits (1 when there are
/// none) fit in `usize`.
pub open spec fn fuzzy_term_of(t: Seq<char>) -> Option<FuzzyTermView> {
    match t.index_of_last('~') {
        None => None,
        Some(c) => {
            let base = t.take(c);
            let suffix = t.skip(c + 1);
            let terms = token_terms(base);
            if exists|k: int| 0 <= k < suffix.len() && !is_ascii_digit(#[trigger] suffix[k]) {
                None
            } else if terms.len() != 1 {
                None
            } else if suffix.len() == 0 {
                Some(FuzzyTermView { term: terms[0], max_distance: 1 })
            } else if decimal_value(suffix) > usize::MAX {
                None
            } else {
                Some(FuzzyTermView { term: terms[0], max_distance: decimal_value(suffix) })
            }
        },
    }
}

/// `q` with the query item added to it.
pub open spec fn apply_item(q: ParsedQueryView, item: QueryItem) -> ParsedQueryView {
    match item {
        QueryItem::Phrase { sign, text, slop } => {
            let terms = token_terms(text);
            let p = PhraseView { terms, slop };
            if terms.len() == 0 {
                q
            } else {
                match sign {
                    Sign::Required => ParsedQueryView { required_phrases: q.required_phrases.push(p), ..q },
                    Sign::Excluded => ParsedQueryView { excluded_phrases: q.excluded_phrases.push(p), ..q },
                    Sign::Plain => ParsedQueryView { phrases: q.phrases.push(p), ..q },
                }
            }
        },
        QueryItem::Word { sign, text } => {
            match metadata_filter_of(text) {
                Some(f) => match sign {
                    Sign::Excluded => ParsedQueryView {
                        excluded_metadata_filters: q.excluded_metadata_filters.push(f),
                        ..q
                    },
                    _ => ParsedQueryView {
                        required_metadata_filters: q.required_metadata_filters.push(f),
                        ..q
                    },
                },
                None => match fuzzy_term_of(text) {
                    Some(z) => match sign {
                        Sign::Required => ParsedQueryView {
                            required_fuzzy_terms: q.required_fuzzy_terms.push(z),
                            ..q
                        },
                        Sign::Excluded => ParsedQueryView {
                            excluded_fuzzy_terms: q.excluded_fuzzy_terms.push(z),
                            ..q
                        },
                        Sign::Plain => ParsedQueryView {
                            optional_fuzzy_terms: q.optional_fuzzy_terms.push(z),
                            ..q
                        },
                    },
                    None => {
                        let terms = token_terms(text);
                        match sign {
                            Sign::Required => ParsedQueryView { required_terms: q.required_terms + terms, ..q },
                            Sign::Excluded => ParsedQueryView { excluded_terms: q.excluded_terms + terms, ..q },
                            Sign::Plain => ParsedQueryView { optional_terms: q.optional_terms + terms, ..q },
                        }
                    },
                },
            }
        },
    }
}

/// The items added one after the other to the empty query.
pub open spec fn apply_items(items: Seq<QueryItem>) -> ParsedQueryView
    decreases items.len(),
{
    if items.len() == 0 {
        empty_query()
    } else {
        apply_item(apply_items(items.drop_last()), items.last())
    }
}

/// The parsed form of a query text: its items, added one after the other to
/// the empty query.
pub open spec fn parse_query_spec(s: Seq<char>) -> ParsedQueryView {
    apply_items(query_items(s))
}

/// The value of the ASCII digit `c`.
fn ascii_digit(c: char) -> (d: usize)
    requires
        is_ascii_digit(c),
    ensures
        d == digit_value(c),
        d <= 9,
{
    ((c as u32) - ('0' as u32)) as usize
}

/// Reads the slop written after a phrase: `~` and its digits, saturated to
/// `usize::MAX`; 0 when no `~` follows. Moves `index` past what it read.
fn parse_phrase_slop(chars: &Vec<char>, index: &mut usize) -> (slop: usize)
    requires
        *old(index) <= chars@.len(),
    ensures
        (slop as nat, *final(index) as int) == slop_at(chars@, *old(index) as int),
{
    let ghost s = chars@;
    if *index >= chars.len() || chars[*index] != '~' {
        return 0;
    }
    let first = *index + 1;
    let mut i = first;
    let mut slop: usize = 0;
    proof {
        lemma_scan_digits_bounds(s, first as int);
        assert(s.subrange(first as int, first as int) =~= Seq::<char>::empty());
    }
    while i < chars.len() && is_digit_char(chars[i])
        invariant
            first <= i <= s.len(),
            chars@ == s,
            scan_digits(s, first as int) == scan_digits(s, i as int),
            slop == saturate(decimal_value(s.subrange(first as int, i as int))),
        decreases s.len() - i,
    {
        let digit = ascii_digit(chars[i]);
        let ghost before = decimal_value(s.subrange(first as int, i as int));
        let times_ten = match slop.checked_mul(10) {
            Some(v) => v,
            None => usize::MAX,
        };
        slop = times_ten.saturating_add(digit);
        proof {
            assert(s.subrange(first as int, i + 1).drop_last() =~= s.subrange(first as int, i as int));
            assert(decimal_value(s.subrange(first as int, i + 1)) == before * 10 + digit);
        }
        i = i + 1;
    }
    *index = i;
    slop
}

fn is_digit_char(c: char) -> (b: bool)
    ensures
        b == is_ascii_digit(c),
{
    '0' <= c && c <= '9'
}

/// Parses the decimal number spelled by the ASCII digits `v[start..end]`, or
/// `None` when it does not fit in `usize` (std's `str::parse::<usize>` on a
/// non-empty string of digits).
fn parse_decimal(v: &Vec<char>, start: usize, end: usize) -> (r: Option<usize>)
    requires
        start <= end <= v@.len(),
        forall|k: int| start <= k < end ==> is_ascii_digit(#[trigger] v@[k]),
    ensures
        match r {
            Some(x) => x == decimal_value(v@.subrange(start as int, end as int)),
            None => decimal_value(v@.subrange(start as int, end as int)) > usize::MAX,
        },
{
    let mut value: usize = 0;
    let mut i = start;
    assert(v@.subrange(start as int, start as int) =~= Seq::<char>::empty());
    while i < end
        invariant
            start <= i <= end <= v@.len(),
            forall|k: int| start <= k < end ==> is_ascii_digit(#[trigger] v@[k]),
            value == decimal_value(v@.subrange(start as int, i as int)),
        decreases end - i,
    {
        let digit = ascii_digit(v[i]);
        proof {
            assert(v@.subrange(start as int, i + 1).drop_last() =~= v@.subrange(start as int, i as int));
        }
        let times_ten = match value.checked_mul(10) {
            Some(t) => t,
            None => {
                proof {
                    lemma_decimal_value_grows(v@.subrange(start as int, end as int), (i + 1 - start) as int);
                    assert(v@.subrange(start as int, end as int).take((i + 1 - start) as int) =~= v@.subrange(start as int, i + 1));
                }
                return None;
            },
        };
        value = match times_ten.checked_add(digit) {
            Some(t) => t,
            None => {
                proof {
                    lemma_decimal_value_grows(v@.subrange(start as int, end as int), (i + 1 - start) as int);
                    assert(v@.subrange(start as int, end as int).take((i + 1 - start) as int) =~= v@.subrange(start as int, i + 1));
                }
                return None;
            },
        };
        i = i + 1;
    }
    Some(value)
}

/// A longer string of digits is worth at least as much as any prefix of it.
proof fn lemma_decimal_value_grows(d: Seq<char>, n: int)
    requires
        0 <= n <= d.len(),
    ensures
        decimal_value(d.take(n)) <= decimal_value(d),
    decreases d.len() - n,
{
    if n < d.len() {
        lemma_decimal_value_grows(d, n + 1);
        assert(d.take(n + 1).drop_last() =~= d.take(n));
        assert(decimal_value(d.take(n + 1)) == decimal_value(d.take(n)) * 10 + digit_value(
            d.take(n + 1).last(),
        ));
    } else {
        assert(d.take(n) =~= d);
    }
}

/// A string holding all the chars of `v`.
fn string_of(v: &Vec<char>) -> (s: String)
    ensures
        s@ == v@,
{
    let s = string_from_chars(v, 0, v.len());
    assert(v@.subrange(0, v@.len() as int) =~= v@);
    s
}

/// Reads a fuzzy term `text~N` from a word.
fn parse_fuzzy_term(token: &Vec<char>) -> (r: Option<FuzzyTermQuery>)
    ensures
        match r {
            Some(q) => fuzzy_term_of(token@) == Some(q@),
            None => fuzzy_term_of(token@) is None,
        },
{
    let ghost t = token@;
    let c = match find_last(token, '~') {
        Some(c) => c,
        None => return None,
    };
    let n = token.len();
    let ghost suffix = t.skip(c + 1);
    let mut k = c + 1;
    while k < n
        invariant
            c < token@.len(),
            n == token@.len(),
            c + 1 <= k <= token@.len(),
            t == token@,
            suffix == t.skip(c + 1),
            t.index_of_last('~') == Some(c as int),
            forall|m: int| c + 1 <= m < k ==> is_ascii_digit(#[trigger] t[m]),
        decreases token@.len() - k,
    {
        if !is_digit_char(token[k]) {
            proof {
                assert(suffix[k - c - 1] == t[k as int]);
                assert(!is_ascii_digit(suffix[k - c - 1]));
                assert(t.index_of_last('~') == Some(c as int));
            }
            return None;
        }
        k = k + 1;
    }
    assert forall|m: int| 0 <= m < suffix.len() implies is_ascii_digit(#[trigger] suffix[m]) by {
        assert(suffix[m] == t[c + 1 + m]);
    }
    let base = string_from_chars(token, 0, c);
    assert(t.subrange(0, c as int) =~= t.take(c as int));
    let normalized = tokenize(base.as_str());
    if normalized.len() != 1 {
        return None;
    }
    let max_distance = if c + 1 == token.len() {
        1
    } else {
        match parse_decimal(token, c + 1, token.len()) {
            Some(v) => v,
            None => {
                assert(t.subrange(c + 1, t.len() as int) =~= suffix);
                return None;
            },
        }
    };
    assert(t.subrange(c + 1, t.len() as int) =~= suffix);
    let term = normalized[0].clone();
    Some(FuzzyTermQuery { term, max_distance })
}

/// `v` without one pair of surrounding double quotes, if it has them.
fn strip_quotes(v: &Vec<char>) -> (r: Vec<char>)
    ensures
        r@ == strip_optional_quotes(v@),
{
    if v.len() >= 2 && v[0] == '"' && v[v.len() - 1] == '"' {
        copy_range(v, 1, v.len() - 1)
    } else {
        copy_range(v, 0, v.len())
    }
}

/// Whether `v` holds exactly the chars of `w`.
fn chars_equal(v: &Vec<char>, w: &[char]) -> (b: bool)
    ensures
        b == (v@ == w@),
{
    if v.len() != w.len() {
        return false;
    }
    for i in 0..v.len()
        invariant
            v@.len() == w@.len(),
            forall|k: int| 0 <= k < i ==> v@[k] == w@[k],
    {
        if v[i] != w[i] {
            return false;
        }
    }
    assert(v@ =~= w@);
    true
}

/// Reads a metadata filter `field:value` from a word.
fn parse_metadata_filter(token: &Vec<char>) -> (r: Option<MetadataFilter>)
    ensures
        match r {
            Some(f) => metadata_filter_of(token@) == Some(f@),
            None => metadata_filter_of(token@) is None,
        },
{
    let ghost t = token@;
    let c = match find_first(token, ':') {
        Some(c) => c,
        None => return None,
    };
    let field = ascii_lowercase_chars(&copy_range(token, 0, c));
    assert(t.subrange(0, c as int) =~= t.take(c as int));
    let n = token.len();
    let raw = copy_range(token, c + 1, n);
    assert(t.subrange(c + 1, t.len() as int) =~= t.skip(c + 1));
    let value = strip_quotes(&raw);
    if value.len() == 0 {
        return None;
    }
    let ext = ['e', 'x', 't'];
    let path = ['p', 'a', 't', 'h'];
    let title = ['t', 'i', 't', 'l', 'e'];
    assert(ext@ =~= seq!['e', 'x', 't']);
    assert(path@ =~= seq!['p', 'a', 't', 'h']);
    assert(title@ =~= seq!['t', 'i', 't', 'l', 'e']);
    if chars_equal(&field, &ext) {
        let normalized = ascii_lowercase_chars(&trim_start_char_chars(&trim_chars(&value), '.'));
        if normalized.len() == 0 {
            None
        } else {
            Some(MetadataFilter { field: MetadataField::Extension, value: string_of(&normalized) })
        }
    } else if chars_equal(&field, &path) {
        Some(MetadataFilter { field: MetadataField::Path, value: string_of(&value) })
    } else if chars_equal(&field, &title) {
        Some(MetadataFilter { field: MetadataField::Title, value: string_of(&value) })
    } else {
        None
    }
}

/// The sign that a prefix char stands for.
pub open spec fn sign_of(prefix: char) -> Sign {
    if prefix == '+' {
        Sign::Required
    } else if prefix == '-' {
        Sign::Excluded
    } else {
        Sign::Plain
    }
}

/// Appends `terms` to `dest`.
fn push_terms(dest: &mut Vec<String>, terms: &Vec<String>)
    ensures
        strings_view(final(dest)@) == strings_view(old(dest)@) + strings_view(terms@),
{
    let ghost start = strings_view(dest@);
    for i in 0..terms.len()
        invariant
            strings_view(dest@) == start + strings_view(terms@.take(i as int)),
    {
        let t = terms[i].clone();
        let ghost before = dest@;
        dest.push(t);
        assert(strings_view(dest@) =~= strings_view(before).push(t@));
        assert(strings_view(terms@.take(i + 1)) =~= strings_view(terms@.take(i as int)).push(
            terms@[i as int]@,
        ));
        assert(strings_view(dest@) =~= start + strings_view(terms@.take(i + 1)));
    }
    assert(terms@.take(terms@.len() as int) =~= terms@);
}

/// The tokens of `text`, as their values.
proof fn lemma_tokens_view(text: Seq<char>, terms: Seq<String>)
    requires
        terms.len() == crate::tokenizer::token_spans(text).len(),
        forall|k: int| 0 <= k < terms.len() ==> #[trigger] terms[k]@ == token_terms(text)[k],
    ensures
        strings_view(terms) == token_terms(text),
{
    assert(strings_view(terms) =~= token_terms(text));
}

/// Reads the phrase that starts with the quote at index `k` and adds it to
/// `parsed`.
fn parse_phrase_item(chars: &Vec<char>, k: usize, prefix: char, parsed: &mut ParsedQuery) -> (next: usize)
    requires
        k < chars@.len(),
        chars@[k as int] == '"',
    ensures
        next == item_after_sign(chars@, sign_of(prefix), k as int).1,
        final(parsed)@ == apply_item(old(parsed)@, item_after_sign(chars@, sign_of(prefix), k as int).0),
{
    let ghost s = chars@;
    let n = chars.len();
    let start = k + 1;
    let mut i = start;
    proof {
        lemma_scan_to_char_bounds(s, start as int, '"');
    }
    while i < n && chars[i] != '"'
        invariant
            start <= i <= n,
            n == s.len(),
            chars@ == s,
            scan_to_char(s, start as int, '"') == scan_to_char(s, i as int, '"'),
        decreases n - i,
    {
        i = i + 1;
    }
    let phrase_text = string_from_chars(chars, start, i);
    if i < n && chars[i] == '"' {
        i = i + 1;
    }
    let slop = parse_phrase_slop(chars, &mut i);
    let terms = tokenize(phrase_text.as_str());
    proof {
        lemma_tokens_view(phrase_text@, terms@);
    }
    let ghost q = parsed@;
    if terms.len() > 0 {
        let phrase = PhraseQuery { terms, slop };
        if prefix == '+' {
            parsed.required_phrases.push(phrase);
            assert(parsed@.required_phrases =~= q.required_phrases.push(phrase@));
        } else if prefix == '-' {
            parsed.excluded_phrases.push(phrase);
            assert(parsed@.excluded_phrases =~= q.excluded_phrases.push(phrase@));
        } else {
            parsed.phrases.push(phrase);
            assert(parsed@.phrases =~= q.phrases.push(phrase@));
        }
    }
    assert(parsed@ =~= apply_item(q, item_after_sign(s, sign_of(prefix), k as int).0));
    i
}

/// Reads the word that starts at index `k` and adds it to `parsed`.
fn parse_word_item(chars: &Vec<char>, k: usize, prefix: char, parsed: &mut ParsedQuery) -> (next: usize)
    requires
        k <= chars@.len(),
        k < chars@.len() ==> chars@[k as int] != '"',
    ensures
        next == item_after_sign(chars@, sign_of(prefix), k as int).1,
        final(parsed)@ == apply_item(old(parsed)@, item_after_sign(chars@, sign_of(prefix), k as int).0),
{
    let ghost s = chars@;
    let n = chars.len();
    let mut i = k;
    proof {
        lemma_scan_to_whitespace_bounds(s, k as int);
    }
    while i < n && !is_whitespace_char(chars[i])
        invariant
            k <= i <= n,
            n == s.len(),
            chars@ == s,
            scan_to_whitespace(s, k as int) == scan_to_whitespace(s, i as int),
        decreases n - i,
    {
        i = i + 1;
    }
    let token = copy_range(chars, k, i);
    let ghost text = s.subrange(k as int, i as int);
    let ghost q = parsed@;
    if let Some(filter) = parse_metadata_filter(&token) {
        if prefix == '-' {
            parsed.excluded_metadata_filters.push(filter);
            assert(parsed@.excluded_metadata_filters =~= q.excluded_metadata_filters.push(filter@));
        } else {
            parsed.required_metadata_filters.push(filter);
            assert(parsed@.required_metadata_filters =~= q.required_metadata_filters.push(filter@));
        }
    } else if let Some(fuzzy) = parse_fuzzy_term(&token) {
        if prefix == '+' {
            parsed.required_fuzzy_terms.push(fuzzy);
            assert(parsed@.required_fuzzy_terms =~= q.required_fuzzy_terms.push(fuzzy@));
        } else if prefix == '-' {
            parsed.excluded_fuzzy_terms.push(fuzzy);
            assert(parsed@.excluded_fuzzy_terms =~= q.excluded_fuzzy_terms.push(fuzzy@));
        } else {
            parsed.optional_fuzzy_terms.push(fuzzy);
            assert(parsed@.optional_fuzzy_terms =~= q.optional_fuzzy_terms.push(fuzzy@));
        }
    } else {
        let token_text = string_of(&token);
        let normalized = tokenize(token_text.as_str());
        proof {
            lemma_tokens_view(text, normalized@);
        }
        if prefix == '+' {
            push_terms(&mut parsed.required_terms, &normalized);
        } else if prefix == '-' {
            push_terms(&mut parsed.excluded_terms, &normalized);
        } else {
            push_terms(&mut parsed.optional_terms, &normalized);
        }
    }
    assert(parsed@ =~= apply_item(q, item_after_sign(s, sign_of(prefix), k as int).0));
    i
}

/// Reads the item that starts at index `j` and adds it to `parsed`.
fn parse_item(chars: &Vec<char>, j: usize, parsed: &mut ParsedQuery) -> (next: usize)
    requires
        j < chars@.len(),
    ensures
        next == item_at(chars@, j as int).1,
        final(parsed)@ == apply_item(old(parsed)@, item_at(chars@, j as int).0),
{
    let n = chars.len();
    let mut k = j;
    let prefix = if chars[k] == '+' || chars[k] == '-' {
        let p = chars[k];
        k = k + 1;
        p
    } else {
        '\0'
    };
    assert(sign_of(prefix) == sign_at(chars@, j as int).0);
    if k < n && chars[k] == '"' {
        parse_phrase_item(chars, k, prefix, parsed)
    } else {
        parse_word_item(chars, k, prefix, parsed)
    }
}

/// Parses a query: whitespace-separated items, each optionally marked `+`
/// (required) or `-` (excluded). A quoted item is a phrase, optionally
/// followed by `~N` for its slop; `ext:`, `path:` and `title:` items are
/// metadata filters; `term~N` is a fuzzy term; any other item contributes its
/// tokens as terms.
pub fn parse_query(input: &str) -> (parsed: ParsedQuery)
    ensures
        parsed@ == parse_query_spec(input@),
{
    let ghost s = input@;
    let chars = chars_of(input);
    let mut parsed = ParsedQuery::default();
    let mut i: usize = 0;
    let ghost mut done: Seq<QueryItem> = Seq::empty();
    assert(query_items(s) =~= done + query_items_from(s, 0));
    loop
        invariant_except_break
            chars@ == s,
            i <= s.len(),
            query_items(s) == done + query_items_from(s, i as int),
            parsed@ == apply_items(done),
        ensures
            parsed@ == parse_query_spec(s),
        decreases s.len() - i,
    {
        let j = skip_whitespace_from(&chars, i);
        if j >= chars.len() {
            proof {
                assert(query_items_from(s, i as int) =~= Seq::<QueryItem>::empty());
                assert(query_items(s) =~= done);
            }
            break;
        }
        proof {
            lemma_skip_whitespace_bounds(s, i as int);
            lemma_item_at_advances(s, j as int);
        }
        let ghost item = item_at(s, j as int).0;
        let next = parse_item(&chars, j, &mut parsed);
        proof {
            let rest = query_items_from(s, next as int);
            assert(query_items_from(s, i as int) == seq![item] + rest);
            assert(done.push(item).drop_last() =~= done);
            assert(query_items(s) =~= done.push(item) + rest);
            done = done.push(item);
        }
        i = next;
    }
    parsed
}

} // verus!
