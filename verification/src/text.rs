//! Character-level building blocks shared by the tokenizer, the query parser
//! and the document metadata logic.
//!
//! The Unicode classifications (`is_alphanumeric`, `is_whitespace`,
//! `to_lowercase`) come from std through small trusted wrappers; everything
//! built on top of them is verified here.
use vstd::prelude::*;
use vstd::utf8::*;

verus! {

broadcast use vstd::utf8::char_is_scalar;

/// Number of UTF-8 bytes needed to encode `s`.
pub open spec fn utf8_len(s: Seq<char>) -> int {
    encode_utf8(s).len() as int
}

/// Byte offset of the char with index `i` in `s` (the UTF-8 length of the
/// first `i` chars).
pub open spec fn byte_offset(s: Seq<char>, i: int) -> int {
    utf8_len(s.take(i))
}

pub proof fn lemma_encode_utf8_concat(a: Seq<char>, b: Seq<char>)
    ensures
        encode_utf8(a + b) == encode_utf8(a) + encode_utf8(b),
    decreases a.len(),
{
    if a.len() == 0 {
        assert(a + b =~= b);
        assert(encode_utf8(a) =~= Seq::<u8>::empty());
        assert(encode_utf8(a) + encode_utf8(b) =~= encode_utf8(b));
    } else {
        lemma_encode_utf8_concat(a.drop_first(), b);
        assert((a + b).drop_first() =~= a.drop_first() + b);
        assert((a + b)[0] == a[0]);
        assert(encode_scalar(a[0] as u32) + (encode_utf8(a.drop_first()) + encode_utf8(b))
            =~= (encode_scalar(a[0] as u32) + encode_utf8(a.drop_first())) + encode_utf8(b));
    }
}

pub proof fn lemma_encode_utf8_single(c: char)
    ensures
        encode_utf8(seq![c]) == encode_scalar(c as u32),
        1 <= encode_scalar(c as u32).len() <= 4,
{
    assert(seq![c].drop_first() =~= Seq::<char>::empty());
    assert(encode_utf8(Seq::<char>::empty()) =~= Seq::<u8>::empty());
    assert(encode_scalar(c as u32) + Seq::<u8>::empty() =~= encode_scalar(c as u32));
}

/// Every char takes at least one byte.
pub proof fn lemma_utf8_len_bounds(s: Seq<char>)
    ensures
        s.len() <= utf8_len(s) <= 4 * s.len(),
    decreases s.len(),
{
    if s.len() > 0 {
        lemma_utf8_len_bounds(s.drop_first());
    }
}

/// Byte offsets grow with the char index, one char's width at a time.
pub proof fn lemma_byte_offset_step(s: Seq<char>, i: int)
    requires
        0 <= i < s.len(),
    ensures
        byte_offset(s, i + 1) == byte_offset(s, i) + encode_scalar(s[i] as u32).len(),
        byte_offset(s, i + 1) <= utf8_len(s),
        byte_offset(s, 0) == 0,
{
    assert(s.take(i + 1) =~= s.take(i) + seq![s[i]]);
    lemma_encode_utf8_concat(s.take(i), seq![s[i]]);
    lemma_encode_utf8_single(s[i]);
    assert(s =~= s.take(i + 1) + s.skip(i + 1));
    lemma_encode_utf8_concat(s.take(i + 1), s.skip(i + 1));
    assert(s.take(0) =~= Seq::<char>::empty());
}

/// Byte offsets are monotonic in the char index.
pub proof fn lemma_byte_offset_monotonic(s: Seq<char>, i: int, j: int)
    requires
        0 <= i <= j <= s.len(),
    ensures
        byte_offset(s, i) <= byte_offset(s, j),
        byte_offset(s, j) <= utf8_len(s),
        j - i <= byte_offset(s, j) - byte_offset(s, i),
{
    assert(s.take(j) =~= s.take(i) + s.subrange(i, j));
    lemma_encode_utf8_concat(s.take(i), s.subrange(i, j));
    lemma_utf8_len_bounds(s.subrange(i, j));
    assert(s =~= s.take(j) + s.skip(j));
    lemma_encode_utf8_concat(s.take(j), s.skip(j));
}

/// Width in bytes of the UTF-8 encoding of `c` (std's `char::len_utf8`).
pub(crate) fn char_utf8_width(c: char) -> (w: usize)
    ensures
        w == encode_scalar(c as u32).len(),
        1 <= w <= 4,
{
    let v = c as u32;
    if v <= 0x7F {
        1
    } else if v <= 0x7FF {
        2
    } else if v <= 0xFFFF {
        3
    } else {
        4
    }
}

/// Whether std classifies `c` as alphanumeric (Unicode `Alphabetic` or
/// `Numeric`); the classification tables are std's.
pub uninterp spec fn char_alphanumeric(c: char) -> bool;

/// Whether std classifies `c` as whitespace (Unicode `White_Space`).
pub uninterp spec fn char_whitespace(c: char) -> bool;

/// The chars of std's lowercase mapping of `c`.
pub uninterp spec fn char_lowercase(c: char) -> Seq<char>;

/// Whether `c` is an ASCII letter or digit.
pub open spec fn ascii_alphanumeric(c: char) -> bool {
    ('a' <= c <= 'z') || ('A' <= c <= 'Z') || ('0' <= c <= '9')
}

/// std's `char::is_alphanumeric`. For an ASCII char std's answer is the
/// ASCII letters and digits (the only ASCII chars that are Unicode
/// `Alphabetic` or `Numeric`), computed here; for the others it is std's.
pub open spec fn alphanumeric(c: char) -> bool {
    if (c as u32) < 128 {
        ascii_alphanumeric(c)
    } else {
        char_alphanumeric(c)
    }
}

/// std's `char::is_whitespace`. The ASCII chars with the Unicode
/// `White_Space` property are tab, line feed, vertical tab, form feed,
/// carriage return and space; for the others the answer is std's.
pub open spec fn whitespace(c: char) -> bool {
    if (c as u32) < 128 {
        c == ' ' || ('\t' <= c <= '\r')
    } else {
        char_whitespace(c)
    }
}

/// std's `char::to_lowercase`. An ASCII char maps to its ASCII lowercase
/// alone; for the others the mapping is std's.
pub open spec fn lowercase(c: char) -> Seq<char> {
    if (c as u32) < 128 {
        seq![ascii_lower_char(c)]
    } else {
        char_lowercase(c)
    }
}

/// Whether `c` is alphanumeric, as std's `char::is_alphanumeric` answers.
pub(crate) fn is_alphanumeric_char(c: char) -> (b: bool)
    ensures
        b == alphanumeric(c),
{
    if (c as u32) < 128 {
        ('a' <= c && c <= 'z') || ('A' <= c && c <= 'Z') || ('0' <= c && c <= '9')
    } else {
        is_alphanumeric(c)
    }
}

/// Whether `c` is whitespace, as std's `char::is_whitespace` answers.
pub(crate) fn is_whitespace_char(c: char) -> (b: bool)
    ensures
        b == whitespace(c),
{
    if (c as u32) < 128 {
        c == ' ' || ('\t' <= c && c <= '\r')
    } else {
        is_whitespace(c)
    }
}

/// The lowercase mapping of `c`, as std's `char::to_lowercase` gives it:
/// one or more chars.
pub(crate) fn lowercase_char(c: char) -> (v: Vec<char>)
    ensures
        v@ == lowercase(c),
        v@.len() >= 1,
{
    if (c as u32) < 128 {
        let mut v: Vec<char> = Vec::new();
        v.push(to_ascii_lower_char(c));
        assert(v@ =~= seq![ascii_lower_char(c)]);
        v
    } else {
        to_lowercase(c)
    }
}

/// Calls std's `char::is_alphanumeric`; the contract only names its answer.
#[verifier::external_body]
pub(crate) fn is_alphanumeric(c: char) -> (b: bool)
    ensures
        b == char_alphanumeric(c),
{
    c.is_alphanumeric()
}

/// Calls std's `char::is_whitespace`; the contract only names its answer.
#[verifier::external_body]
pub(crate) fn is_whitespace(c: char) -> (b: bool)
    ensures
        b == char_whitespace(c),
{
    c.is_whitespace()
}

/// Calls std's `char::to_lowercase` and collects the chars it yields. The
/// contract names the mapping and states what std documents of it: it
/// yields one or more chars.
#[verifier::external_body]
pub(crate) fn to_lowercase(c: char) -> (v: Vec<char>)
    ensures
        v@ == char_lowercase(c),
        v@.len() >= 1,
{
    c.to_lowercase().collect()
}

/// Calls std's `String::push`, which appends one char.
#[verifier::external_body]
pub(crate) fn push_char(s: &mut String, c: char)
    ensures
        final(s)@ == old(s)@.push(c),
{
    s.push(c)
}

/// Calls std's `str::len`: the number of bytes of the UTF-8 encoding of the
/// string, which as the length of a slice in memory fits in `usize`.
#[verifier::external_body]
pub(crate) fn str_byte_len(s: &str) -> (n: usize)
    ensures
        n == utf8_len(s@),
{
    s.len()
}

/// Collects the chars of `s`.
pub(crate) fn chars_of(s: &str) -> (v: Vec<char>)
    ensures
        v@ == s@,
{
    let mut v: Vec<char> = Vec::new();
    for c in it: s.chars()
        invariant
            it.seq() == s@,
            v@ == s@.take(it.index() as int),
    {
        assert(s@.take(it.index() + 1) =~= s@.take(it.index() as int).push(c));
        v.push(c);
    }
    assert(s@.take(s@.len() as int) =~= s@);
    v
}

/// A string holding the chars `v[start..end]`.
pub(crate) fn string_from_chars(v: &Vec<char>, start: usize, end: usize) -> (s: String)
    requires
        start <= end <= v@.len(),
    ensures
        s@ == v@.subrange(start as int, end as int),
{
    let mut s = String::new();
    let mut i = start;
    while i < end
        invariant
            start <= i <= end <= v@.len(),
            s@ == v@.subrange(start as int, i as int),
        decreases end - i,
    {
        push_char(&mut s, v[i]);
        assert(v@.subrange(start as int, i + 1) =~= v@.subrange(start as int, i as int).push(
            v@[i as int],
        ));
        i = i + 1;
    }
    s
}

/// `'0'..='9'`.
pub open spec fn is_ascii_digit(c: char) -> bool {
    '0' <= c <= '9'
}

/// The value of a digit char.
pub open spec fn digit_value(c: char) -> nat {
    (c as u32 - '0' as u32) as nat
}

/// The decimal value of a string of ASCII digits.
pub open spec fn decimal_value(d: Seq<char>) -> nat
    decreases d.len(),
{
    if d.len() == 0 {
        0
    } else {
        decimal_value(d.drop_last()) * 10 + digit_value(d.last())
    }
}

/// std's `char::to_ascii_lowercase`: `'A'..='Z'` become `'a'..='z'`, every
/// other char stays as it is.
pub open spec fn ascii_lower_char(c: char) -> char {
    if 'A' <= c <= 'Z' {
        ((c as u32) + 32) as char
    } else {
        c
    }
}

/// std's `str::to_ascii_lowercase`: every char mapped by `ascii_lower_char`.
pub open spec fn ascii_lowercase(s: Seq<char>) -> Seq<char> {
    s.map_values(|c: char| ascii_lower_char(c))
}

pub(crate) fn to_ascii_lower_char(c: char) -> (r: char)
    ensures
        r == ascii_lower_char(c),
{
    if 'A' <= c && c <= 'Z' {
        let b = c as u8;
        assert(b == c as u32);
        (b + 32) as char
    } else {
        c
    }
}

/// The first index at or after `i` whose char is not whitespace, or the
/// end of `s`.
pub open spec fn skip_whitespace(s: Seq<char>, i: int) -> int
    decreases s.len() - i,
{
    if 0 <= i < s.len() && whitespace(s[i]) {
        skip_whitespace(s, i + 1)
    } else {
        i
    }
}

/// The end of `s[..j]` once its trailing whitespace is dropped.
pub open spec fn drop_trailing_whitespace(s: Seq<char>, j: int) -> int
    decreases j,
{
    if 0 < j <= s.len() && whitespace(s[j - 1]) {
        drop_trailing_whitespace(s, j - 1)
    } else {
        j
    }
}

/// std's `str::trim`: `s` without its leading and trailing whitespace.
pub open spec fn trim(s: Seq<char>) -> Seq<char> {
    let a = skip_whitespace(s, 0);
    if a >= s.len() {
        Seq::empty()
    } else {
        s.subrange(a, drop_trailing_whitespace(s, s.len() as int))
    }
}

/// The first index at or after `i` whose char is not `c`, or the end of `s`.
pub open spec fn skip_char(s: Seq<char>, i: int, c: char) -> int
    decreases s.len() - i,
{
    if 0 <= i < s.len() && s[i] == c {
        skip_char(s, i + 1, c)
    } else {
        i
    }
}

/// std's `str::trim_start_matches` with a char pattern.
pub open spec fn trim_start_char(s: Seq<char>, c: char) -> Seq<char> {
    s.skip(skip_char(s, 0, c))
}

pub proof fn lemma_skip_whitespace_bounds(s: Seq<char>, i: int)
    requires
        0 <= i <= s.len(),
    ensures
        i <= skip_whitespace(s, i) <= s.len(),
        skip_whitespace(s, i) < s.len() ==> !whitespace(s[skip_whitespace(s, i)]),
        forall|j: int| i <= j < skip_whitespace(s, i) ==> whitespace(#[trigger] s[j]),
    decreases s.len() - i,
{
    if i < s.len() && whitespace(s[i]) {
        lemma_skip_whitespace_bounds(s, i + 1);
    }
}

pub proof fn lemma_drop_trailing_whitespace_bounds(s: Seq<char>, j: int)
    requires
        0 <= j <= s.len(),
    ensures
        0 <= drop_trailing_whitespace(s, j) <= j,
        drop_trailing_whitespace(s, j) > 0 ==> !whitespace(
            s[drop_trailing_whitespace(s, j) - 1],
        ),
        forall|k: int| drop_trailing_whitespace(s, j) <= k < j ==> whitespace(#[trigger] s[k]),
    decreases j,
{
    if 0 < j && whitespace(s[j - 1]) {
        lemma_drop_trailing_whitespace_bounds(s, j - 1);
    }
}

pub proof fn lemma_skip_char_bounds(s: Seq<char>, i: int, c: char)
    requires
        0 <= i <= s.len(),
    ensures
        i <= skip_char(s, i, c) <= s.len(),
    decreases s.len() - i,
{
    if i < s.len() && s[i] == c {
        lemma_skip_char_bounds(s, i + 1, c);
    }
}

/// Index of the first non-whitespace char at or after `i` in `v`.
pub(crate) fn skip_whitespace_from(v: &Vec<char>, i: usize) -> (r: usize)
    requires
        i <= v@.len(),
    ensures
        r == skip_whitespace(v@, i as int),
        i <= r <= v@.len(),
{
    let mut j = i;
    proof {
        lemma_skip_whitespace_bounds(v@, i as int);
    }
    while j < v.len() && is_whitespace_char(v[j])
        invariant
            i <= j <= v@.len(),
            skip_whitespace(v@, i as int) == skip_whitespace(v@, j as int),
        decreases v@.len() - j,
    {
        j = j + 1;
    }
    j
}

/// std's `str::trim` on a char sequence.
pub(crate) fn trim_chars(v: &Vec<char>) -> (r: Vec<char>)
    ensures
        r@ == trim(v@),
{
    let a = skip_whitespace_from(v, 0);
    if a >= v.len() {
        return Vec::new();
    }
    proof {
        lemma_skip_whitespace_bounds(v@, 0);
        lemma_drop_trailing_whitespace_bounds(v@, v@.len() as int);
    }
    let mut e = v.len();
    while e > 0 && is_whitespace_char(v[e - 1])
        invariant
            e <= v@.len(),
            drop_trailing_whitespace(v@, v@.len() as int) == drop_trailing_whitespace(v@, e as int),
        decreases e,
    {
        e = e - 1;
    }
    proof {
        lemma_drop_trailing_whitespace_bounds(v@, v@.len() as int);
        if e <= a {
            assert(whitespace(v@[a as int]));
        }
    }
    copy_range(v, a, e)
}

/// std's `str::trim_start_matches` with a char pattern, on a char sequence.
pub(crate) fn trim_start_char_chars(v: &Vec<char>, c: char) -> (r: Vec<char>)
    ensures
        r@ == trim_start_char(v@, c),
{
    let mut j: usize = 0;
    proof {
        lemma_skip_char_bounds(v@, 0, c);
    }
    while j < v.len() && v[j] == c
        invariant
            j <= v@.len(),
            skip_char(v@, 0, c) == skip_char(v@, j as int, c),
        decreases v@.len() - j,
    {
        j = j + 1;
    }
    copy_range(v, j, v.len())
}

/// std's `str::to_ascii_lowercase` on a char sequence.
pub(crate) fn ascii_lowercase_chars(v: &Vec<char>) -> (r: Vec<char>)
    ensures
        r@ == ascii_lowercase(v@),
{
    let mut r: Vec<char> = Vec::new();
    for i in 0..v.len()
        invariant
            r@ == ascii_lowercase(v@.take(i as int)),
    {
        r.push(to_ascii_lower_char(v[i]));
        assert(ascii_lowercase(v@.take(i + 1)) =~= ascii_lowercase(v@.take(i as int)).push(
            ascii_lower_char(v@[i as int]),
        ));
    }
    assert(v@.take(v@.len() as int) =~= v@);
    r
}

/// The chars `v[start..end]`.
pub(crate) fn copy_range(v: &Vec<char>, start: usize, end: usize) -> (r: Vec<char>)
    requires
        start <= end <= v@.len(),
    ensures
        r@ == v@.subrange(start as int, end as int),
{
    let mut r: Vec<char> = Vec::new();
    let mut i = start;
    while i < end
        invariant
            start <= i <= end <= v@.len(),
            r@ == v@.subrange(start as int, i as int),
        decreases end - i,
    {
        r.push(v[i]);
        assert(v@.subrange(start as int, i + 1) =~= v@.subrange(start as int, i as int).push(
            v@[i as int],
        ));
        i = i + 1;
    }
    r
}

/// The index of the first `c` in `v`, as `Seq::index_of_first` gives it.
pub(crate) fn find_first(v: &Vec<char>, c: char) -> (r: Option<usize>)
    ensures
        match r {
            Some(k) => v@.index_of_first(c) == Some(k as int) && k < v@.len() && v@[k as int] == c,
            None => v@.index_of_first(c) is None,
        },
{
    proof {
        v@.index_of_first_ensures(c);
    }
    for i in 0..v.len()
        invariant
            forall|j: int| 0 <= j < i ==> v@[j] != c,
            match v@.index_of_first(c) {
                Some(index) => {
                    &&& v@.contains(c)
                    &&& 0 <= index < v@.len()
                    &&& v@[index] == c
                    &&& forall|j: int| 0 <= j < index < v@.len() ==> v@[j] != c
                },
                None => !v@.contains(c),
            },
    {
        if v[i] == c {
            return Some(i);
        }
    }
    proof {
        if v@.contains(c) {
            let k = choose|k: int| 0 <= k < v@.len() && v@[k] == c;
        }
    }
    None
}

/// The index of the last `c` in `v`, as `Seq::index_of_last` gives it.
pub(crate) fn find_last(v: &Vec<char>, c: char) -> (r: Option<usize>)
    ensures
        match r {
            Some(k) => v@.index_of_last(c) == Some(k as int) && k < v@.len() && v@[k as int] == c,
            None => v@.index_of_last(c) is None,
        },
{
    proof {
        v@.index_of_last_ensures(c);
    }
    let mut i = v.len();
    while i > 0
        invariant
            i <= v@.len(),
            forall|j: int| i <= j < v@.len() ==> v@[j] != c,
            match v@.index_of_last(c) {
                Some(index) => {
                    &&& v@.contains(c)
                    &&& 0 <= index < v@.len()
                    &&& v@[index] == c
                    &&& forall|j: int| 0 <= index < j < v@.len() ==> v@[j] != c
                },
                None => !v@.contains(c),
            },
        decreases i,
    {
        if v[i - 1] == c {
            return Some(i - 1);
        }
        i = i - 1;
    }
    proof {
        if v@.contains(c) {
            let k = choose|k: int| 0 <= k < v@.len() && v@[k] == c;
        }
    }
    None
}

} // verus!
