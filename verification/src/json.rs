//! JSON text for the values that the engine hands to other languages:
//! strings, term statistics, documents and the vocabulary.
use vstd::prelude::*;

use crate::document::{DocumentMeta, DocumentView};
use crate::index::{TermStat, TermStatView};
use crate::query::strings_view;
use crate::text::push_char;

verus! {

/// The char of a decimal digit.
pub open spec fn digit_char(d: nat) -> char {
    (48 + d) as char
}

/// The char of an uppercase hexadecimal digit.
pub open spec fn hex_char(d: nat) -> char {
    if d < 10 {
        (48 + d) as char
    } else {
        (55 + d) as char
    }
}

/// The decimal notation of `n`, without leading zeros.
pub open spec fn decimal_text(n: nat) -> Seq<char>
    decreases n,
{
    if n < 10 {
        seq![digit_char(n)]
    } else {
        decimal_text(n / 10).push(digit_char(n % 10))
    }
}

/// How one char is written inside a JSON string: quote and backslash are
/// escaped, the usual control chars get their short escapes, the other
/// control chars below U+0020 are written as `\u00XX`, and every other
/// char stands for itself.
pub open spec fn escape_char(c: char) -> Seq<char> {
    if c == '"' {
        seq!['\\', '"']
    } else if c == '\\' {
        seq!['\\', '\\']
    } else if c == '\u{08}' {
        seq!['\\', 'b']
    } else if c == '\u{0C}' {
        seq!['\\', 'f']
    } else if c == '\n' {
        seq!['\\', 'n']
    } else if c == '\r' {
        seq!['\\', 'r']
    } else if c == '\t' {
        seq!['\\', 't']
    } else if (c as u32) <= 0x1F {
        seq!['\\', 'u', '0', '0', hex_char((c as u32 / 16) as nat), hex_char((c as u32 % 16) as nat)]
    } else {
        seq![c]
    }
}

/// The chars of `s`, each escaped.
pub open spec fn escaped(s: Seq<char>) -> Seq<char>
    decreases s.len(),
{
    if s.len() == 0 {
        Seq::empty()
    } else {
        escaped(s.drop_last()) + escape_char(s.last())
    }
}

/// `s` as a JSON string literal.
pub open spec fn json_string(s: Seq<char>) -> Seq<char> {
    seq!['"'] + escaped(s) + seq!['"']
}

/// The items separated by commas.
pub open spec fn comma_joined(items: Seq<Seq<char>>) -> Seq<char>
    decreases items.len(),
{
    if items.len() == 0 {
        Seq::empty()
    } else if items.len() == 1 {
        items[0]
    } else {
        comma_joined(items.drop_last()) + seq![','] + items.last()
    }
}

/// A JSON array of already written values.
pub open spec fn json_array(items: Seq<Seq<char>>) -> Seq<char> {
    seq!['['] + comma_joined(items) + seq![']']
}

/// A JSON object of already written `key:value` members.
pub open spec fn json_object(members: Seq<Seq<char>>) -> Seq<char> {
    seq!['{'] + comma_joined(members) + seq!['}']
}

/// A member of a JSON object.
pub open spec fn json_member(key: Seq<char>, value: Seq<char>) -> Seq<char> {
    json_string(key) + seq![':'] + value
}

/// `null`.
pub open spec fn json_null() -> Seq<char> {
    seq!['n', 'u', 'l', 'l']
}

/// An optional string: the string, or `null`.
pub open spec fn json_optional_string(v: Option<Seq<char>>) -> Seq<char> {
    match v {
        Some(s) => json_string(s),
        None => json_null(),
    }
}

/// An optional number: the number, or `null`.
pub open spec fn json_optional_number(v: Option<u64>) -> Seq<char> {
    match v {
        Some(n) => decimal_text(n as nat),
        None => json_null(),
    }
}

/// A list of strings as a JSON array.
pub open spec fn json_string_array(values: Seq<Seq<char>>) -> Seq<char> {
    json_array(values.map_values(|v: Seq<char>| json_string(v)))
}

/// The JSON object of one term's statistics.
pub open spec fn term_stat_json(s: TermStatView) -> Seq<char> {
    json_object(
        seq![
            json_member("term"@, json_string(s.term)),
            json_member("document_frequency"@, decimal_text(s.document_frequency)),
            json_member("total_frequency"@, decimal_text(s.total_frequency)),
        ],
    )
}

/// The JSON object of one document's metadata.
pub open spec fn document_json(d: DocumentView) -> Seq<char> {
    json_object(
        seq![
            json_member("id"@, decimal_text(d.id)),
            json_member("path"@, json_string(d.path)),
            json_member("length"@, decimal_text(d.length)),
            json_member("content"@, json_string(d.content)),
            json_member("extension"@, json_optional_string(d.extension)),
            json_member("title"@, json_string(d.title)),
            json_member("modified_unix_timestamp_secs"@, json_optional_number(d.modified_unix_timestamp_secs)),
        ],
    )
}

/// A JSON string written here holds no raw control char: every char below
/// U+0020 in the text is escaped.
pub proof fn lemma_json_string_has_no_control_chars(s: Seq<char>)
    ensures
        forall|i: int| 0 <= i < json_string(s).len() ==> (#[trigger] json_string(s)[i]) as u32 >= 0x20,
{
    lemma_escaped_has_no_control_chars(s);
    let e = escaped(s);
    let j = json_string(s);
    assert forall|i: int| 0 <= i < j.len() implies (#[trigger] j[i]) as u32 >= 0x20 by {
        if 0 < i < j.len() - 1 {
            assert(j[i] == e[i - 1]);
        }
    }
}

proof fn lemma_escaped_has_no_control_chars(s: Seq<char>)
    ensures
        forall|i: int| 0 <= i < escaped(s).len() ==> (#[trigger] escaped(s)[i]) as u32 >= 0x20,
    decreases s.len(),
{
    if s.len() > 0 {
        lemma_escaped_has_no_control_chars(s.drop_last());
        let a = escaped(s.drop_last());
        let c = s.last();
        let b = escape_char(c);
        assert forall|k: int| 0 <= k < b.len() implies (#[trigger] b[k]) as u32 >= 0x20 by {
            if (c as u32) <= 0x1F && c != '\u{08}' && c != '\u{0C}' && c != '\n' && c != '\r' && c != '\t' {
                let hi = (c as u32 / 16) as nat;
                let lo = (c as u32 % 16) as nat;
                assert(hi < 16 && lo < 16);
                assert(hex_char(hi) as u32 >= 48);
                assert(hex_char(lo) as u32 >= 48);
            }
        }
        assert forall|i: int| 0 <= i < escaped(s).len() implies (#[trigger] escaped(s)[i]) as u32 >= 0x20 by {
            if i < a.len() {
                assert(escaped(s)[i] == a[i]);
            } else {
                assert(escaped(s)[i] == b[i - a.len()]);
            }
        }
    }
}

/// The value of a hexadecimal digit, in either case.
pub open spec fn hex_value(c: char) -> Option<nat> {
    if '0' <= c <= '9' {
        Some((c as u32 - 48) as nat)
    } else if 'A' <= c <= 'F' {
        Some((c as u32 - 55) as nat)
    } else if 'a' <= c <= 'f' {
        Some((c as u32 - 87) as nat)
    } else {
        None
    }
}

/// The code that four hexadecimal digits write.
pub open spec fn hex4_value(a: char, b: char, c: char, d: char) -> Option<nat> {
    match (hex_value(a), hex_value(b), hex_value(c), hex_value(d)) {
        (Some(w), Some(x), Some(y), Some(z)) => Some(((w * 16 + x) * 16 + y) * 16 + z),
        _ => None,
    }
}

/// The char that a short escape `\x` stands for.
pub open spec fn short_escape(x: char) -> Option<char> {
    if x == '"' {
        Some('"')
    } else if x == '\\' {
        Some('\\')
    } else if x == '/' {
        Some('/')
    } else if x == 'b' {
        Some('\u{08}')
    } else if x == 'f' {
        Some('\u{0C}')
    } else if x == 'n' {
        Some('\n')
    } else if x == 'r' {
        Some('\r')
    } else if x == 't' {
        Some('\t')
    } else {
        None
    }
}

/// The text that the inside of a JSON string stands for: escapes read, raw
/// quotes and control chars refused. A `\u` escape of a surrogate code is
/// not read.
pub open spec fn json_unescape(s: Seq<char>) -> Option<Seq<char>>
    decreases s.len(),
{
    if s.len() == 0 {
        Some(Seq::empty())
    } else if s[0] == '\\' {
        if s.len() < 2 {
            None
        } else if s[1] == 'u' {
            if s.len() < 6 {
                None
            } else {
                match (hex4_value(s[2], s[3], s[4], s[5]), json_unescape(s.skip(6))) {
                    (Some(v), Some(rest)) => if v < 0xD800 || 0xE000 <= v {
                        Some(seq![(v as u32) as char] + rest)
                    } else {
                        None
                    },
                    _ => None,
                }
            }
        } else {
            match (short_escape(s[1]), json_unescape(s.skip(2))) {
                (Some(c), Some(rest)) => Some(seq![c] + rest),
                _ => None,
            }
        }
    } else if s[0] == '"' || (s[0] as u32) < 0x20 {
        None
    } else {
        match json_unescape(s.skip(1)) {
            Some(rest) => Some(seq![s[0]] + rest),
            None => None,
        }
    }
}

/// The text a JSON string literal stands for.
pub open spec fn json_string_value(t: Seq<char>) -> Option<Seq<char>> {
    if t.len() >= 2 && t[0] == '"' && t.last() == '"' {
        json_unescape(t.subrange(1, t.len() - 1))
    } else {
        None
    }
}

proof fn lemma_escaped_cons(s: Seq<char>)
    requires
        s.len() > 0,
    ensures
        escaped(s) == escape_char(s[0]) + escaped(s.drop_first()),
    decreases s.len(),
{
    if s.len() == 1 {
        assert(s.drop_last() =~= Seq::<char>::empty());
        assert(s.drop_first() =~= Seq::<char>::empty());
        assert(escaped(Seq::<char>::empty()) =~= Seq::<char>::empty());
        assert(escaped(s) =~= escape_char(s[0]) + escaped(s.drop_first()));
    } else {
        lemma_escaped_cons(s.drop_last());
        assert(s.drop_last().drop_first() =~= s.drop_first().drop_last());
        assert(s.drop_first().last() == s.last());
        assert(escaped(s) =~= escape_char(s[0]) + escaped(s.drop_first()));
    }
}

proof fn lemma_hex_char_value(d: nat)
    requires
        d < 16,
    ensures
        hex_value(hex_char(d)) == Some(d),
{
    if d < 10 {
        assert(hex_char(d) as u32 == 48 + d);
    } else {
        assert(hex_char(d) as u32 == 55 + d);
    }
}

/// A written JSON string reads back as the text it was written from.
pub proof fn lemma_json_string_reads_back(v: Seq<char>)
    ensures
        json_string_value(json_string(v)) == Some(v),
{
    lemma_json_unescape_escaped(v);
    let t = json_string(v);
    assert(t.subrange(1, t.len() - 1) =~= escaped(v));
}

proof fn lemma_json_unescape_escaped(v: Seq<char>)
    ensures
        json_unescape(escaped(v)) == Some(v),
    decreases v.len(),
{
    if v.len() == 0 {
        assert(escaped(v) =~= Seq::<char>::empty());
        assert(v =~= Seq::<char>::empty());
    } else {
        let c = v[0];
        let rest = v.drop_first();
        lemma_json_unescape_escaped(rest);
        lemma_escaped_cons(v);
        let e = escaped(v);
        let ec = escape_char(c);
        assert(e == ec + escaped(rest));
        assert(v =~= seq![c] + rest);
        if ec.len() == 2 {
            assert(e.skip(2) =~= escaped(rest));
            assert(e[0] == '\\');
            assert(e[1] == ec[1]);
        } else if ec.len() == 6 {
            let code = c as u32;
            let hi = (code / 16) as nat;
            let lo = (code % 16) as nat;
            lemma_hex_char_value(hi);
            lemma_hex_char_value(lo);
            assert(hex_value('0') == Some(0nat));
            assert(e.skip(6) =~= escaped(rest));
            assert(e[0] == '\\' && e[1] == 'u' && e[2] == '0' && e[3] == '0');
            assert(e[4] == hex_char(hi) && e[5] == hex_char(lo));
            assert(hi * 16 + lo == code) by (nonlinear_arith)
                requires
                    hi == code / 16,
                    lo == code % 16,
            ;
            assert(hex4_value(e[2], e[3], e[4], e[5]) == Some(code as nat));
            assert((code as nat) as u32 == code);
            vstd::utf8::char_u32_cast(c, code);
        } else {
            assert(e.skip(1) =~= escaped(rest));
            assert(e[0] == c);
        }
    }
}

proof fn lemma_comma_joined_push(items: Seq<Seq<char>>, x: Seq<char>)
    ensures
        comma_joined(items.push(x)) == if items.len() == 0 {
            x
        } else {
            comma_joined(items) + seq![','] + x
        },
{
    assert(items.push(x).drop_last() =~= items);
    if items.len() == 0 {
        assert(items.push(x)[0] == x);
    }
}

/// Appends the chars of `s`.
fn push_str(output: &mut String, s: &str)
    ensures
        final(output)@ == old(output)@ + s@,
{
    output.append(s);
}

/// Appends the decimal notation of `n`.
pub(crate) fn push_decimal(output: &mut String, n: u64)
    ensures
        final(output)@ == old(output)@ + decimal_text(n as nat),
    decreases n,
{
    if n >= 10 {
        push_decimal(output, n / 10);
    }
    let d = (n % 10) as u8;
    let c = (48u8 + d) as char;
    assert(c == digit_char((n % 10) as nat));
    push_char(output, c);
    proof {
        if n >= 10 {
            assert(decimal_text(n as nat) == decimal_text((n / 10) as nat).push(digit_char((n % 10) as nat)));
        } else {
            assert(decimal_text(n as nat) =~= seq![digit_char(n as nat)]);
        }
    }
}

/// The chars of a hexadecimal digit.
fn hex_digit(d: u32) -> (c: char)
    requires
        d < 16,
    ensures
        c == hex_char(d as nat),
{
    let b = d as u8;
    if b < 10 {
        (48u8 + b) as char
    } else {
        (55u8 + b) as char
    }
}

/// Appends the escaped form of one char.
fn push_escaped_char(output: &mut String, c: char)
    ensures
        final(output)@ == old(output)@ + escape_char(c),
{
    let ghost start = output@;
    if c == '"' {
        push_char(output, '\\');
        push_char(output, '"');
    } else if c == '\\' {
        push_char(output, '\\');
        push_char(output, '\\');
    } else if c == '\u{08}' {
        push_char(output, '\\');
        push_char(output, 'b');
    } else if c == '\u{0C}' {
        push_char(output, '\\');
        push_char(output, 'f');
    } else if c == '\n' {
        push_char(output, '\\');
        push_char(output, 'n');
    } else if c == '\r' {
        push_char(output, '\\');
        push_char(output, 'r');
    } else if c == '\t' {
        push_char(output, '\\');
        push_char(output, 't');
    } else if (c as u32) <= 0x1F {
        let code = c as u32;
        push_char(output, '\\');
        push_char(output, 'u');
        push_char(output, '0');
        push_char(output, '0');
        push_char(output, hex_digit(code / 16));
        push_char(output, hex_digit(code % 16));
    } else {
        push_char(output, c);
    }
    assert(output@ =~= start + escape_char(c));
}

/// Appends `value` as a JSON string literal: in double quotes, with quote,
/// backslash and control chars escaped.
pub fn json_escape(value: &str, output: &mut String)
    ensures
        final(output)@ == old(output)@ + json_string(value@),
{
    let ghost start = output@;
    let ghost s = value@;
    push_char(output, '"');
    for c in it: value.chars()
        invariant
            it.seq() == s,
            output@ == start + seq!['"'] + escaped(s.take(it.index() as int)),
    {
        let ghost before = output@;
        push_escaped_char(output, c);
        proof {
            let i = it.index() as int;
            assert(s.take(i + 1).drop_last() =~= s.take(i));
            assert(s.take(i + 1).last() == c);
            assert(output@ =~= start + seq!['"'] + escaped(s.take(i + 1)));
        }
    }
    assert(s.take(s.len() as int) =~= s);
    push_char(output, '"');
    assert(output@ =~= start + json_string(s));
}

/// Appends `"key":` for a member of an object.
fn push_key(output: &mut String, key: &str)
    ensures
        final(output)@ == old(output)@ + json_string(key@) + seq![':'],
{
    json_escape(key, output);
    push_char(output, ':');
}

/// Appends an array of JSON strings.
pub fn push_json_string_array(output: &mut String, values: &[String])
    ensures
        final(output)@ == old(output)@ + json_string_array(strings_view(values@)),
{
    let ghost start = output@;
    let ghost items = strings_view(values@).map_values(|v: Seq<char>| json_string(v));
    push_char(output, '[');
    let mut i: usize = 0;
    while i < values.len()
        invariant
            i <= values@.len(),
            items == strings_view(values@).map_values(|v: Seq<char>| json_string(v)),
            output@ == start + seq!['['] + comma_joined(items.take(i as int)),
        decreases values@.len() - i,
    {
        proof {
            lemma_comma_joined_push(items.take(i as int), items[i as int]);
            assert(items.take(i + 1) =~= items.take(i as int).push(items[i as int]));
        }
        if i > 0 {
            push_char(output, ',');
        }
        json_escape(values[i].as_str(), output);
        assert(output@ =~= start + seq!['['] + comma_joined(items.take(i + 1)));
        i = i + 1;
    }
    assert(items.take(values@.len() as int) =~= items);
    push_char(output, ']');
    assert(output@ =~= start + json_string_array(strings_view(values@)));
}

/// The vocabulary as a JSON array of strings.
pub fn serialize_vocabulary(vocabulary: &[String]) -> (json: String)
    ensures
        json@ == json_string_array(strings_view(vocabulary@)),
{
    let mut output = String::new();
    push_json_string_array(&mut output, vocabulary);
    assert(output@ =~= json_string_array(strings_view(vocabulary@)));
    output
}

/// Appends a member whose value is a string.
fn push_json_string_field(output: &mut String, key: &str, value: &str)
    ensures
        final(output)@ == old(output)@ + json_member(key@, json_string(value@)),
{
    let ghost start = output@;
    push_key(output, key);
    json_escape(value, output);
    assert(output@ =~= start + json_member(key@, json_string(value@)));
}

/// Appends a member whose value is a number.
fn push_json_u64_field(output: &mut String, key: &str, value: u64)
    ensures
        final(output)@ == old(output)@ + json_member(key@, decimal_text(value as nat)),
{
    let ghost start = output@;
    push_key(output, key);
    push_decimal(output, value);
    assert(output@ =~= start + json_member(key@, decimal_text(value as nat)));
}

/// Appends a member whose value is a string or `null`.
fn push_json_optional_string_field(output: &mut String, key: &str, value: Option<&str>)
    ensures
        final(output)@ == old(output)@ + json_member(
            key@,
            json_optional_string(
                match value {
                    Some(s) => Some(s@),
                    None => None,
                },
            ),
        ),
{
    let ghost start = output@;
    push_key(output, key);
    match value {
        Some(s) => json_escape(s, output),
        None => push_null(output),
    }
    assert(output@ =~= start + json_member(
        key@,
        json_optional_string(
            match value {
                Some(s) => Some(s@),
                None => None,
            },
        ),
    ));
}

/// Appends a member whose value is a number or `null`.
fn push_json_optional_u64_field(output: &mut String, key: &str, value: Option<u64>)
    ensures
        final(output)@ == old(output)@ + json_member(key@, json_optional_number(value)),
{
    let ghost start = output@;
    push_key(output, key);
    match value {
        Some(n) => push_decimal(output, n),
        None => push_null(output),
    }
    assert(output@ =~= start + json_member(key@, json_optional_number(value)));
}

/// Appends `null`.
fn push_null(output: &mut String)
    ensures
        final(output)@ == old(output)@ + json_null(),
{
    let ghost start = output@;
    push_char(output, 'n');
    push_char(output, 'u');
    push_char(output, 'l');
    push_char(output, 'l');
    assert(output@ =~= start + json_null());
}

/// Appends the JSON object of one term's statistics.
fn push_term_stat(output: &mut String, stat: &TermStat)
    ensures
        final(output)@ == old(output)@ + term_stat_json(stat@),
{
    let ghost start = output@;
    let ghost m0 = json_member("term"@, json_string(stat.term@));
    let ghost m1 = json_member("document_frequency"@, decimal_text(stat.document_frequency as nat));
    let ghost m2 = json_member("total_frequency"@, decimal_text(stat.total_frequency as nat));
    push_char(output, '{');
    push_json_string_field(output, "term", stat.term.as_str());
    assert(output@ =~= start + seq!['{'] + m0);
    push_char(output, ',');
    push_json_u64_field(output, "document_frequency", stat.document_frequency as u64);
    assert(output@ =~= start + seq!['{'] + m0 + seq![','] + m1);
    push_char(output, ',');
    push_json_u64_field(output, "total_frequency", stat.total_frequency as u64);
    push_char(output, '}');
    proof {
        let ms = seq![m0, m1, m2];
        lemma_comma_joined_push(seq![m0], m1);
        lemma_comma_joined_push(seq![m0, m1], m2);
        assert(seq![m0].push(m1) =~= seq![m0, m1]);
        assert(seq![m0, m1].push(m2) =~= ms);
        assert(comma_joined(seq![m0]) == m0);
        assert(output@ =~= start + term_stat_json(stat@));
    }
}

/// Term statistics as a JSON array of objects with `term`,
/// `document_frequency` and `total_frequency`.
pub fn serialize_term_stats(stats: &[TermStat]) -> (json: String)
    ensures
        json@ == json_array(stats@.map_values(|s: TermStat| term_stat_json(s@))),
{
    let ghost items = stats@.map_values(|s: TermStat| term_stat_json(s@));
    let mut output = String::new();
    push_char(&mut output, '[');
    let mut i: usize = 0;
    while i < stats.len()
        invariant
            i <= stats@.len(),
            items == stats@.map_values(|s: TermStat| term_stat_json(s@)),
            output@ == seq!['['] + comma_joined(items.take(i as int)),
        decreases stats@.len() - i,
    {
        proof {
            lemma_comma_joined_push(items.take(i as int), items[i as int]);
            assert(items.take(i + 1) =~= items.take(i as int).push(items[i as int]));
        }
        if i > 0 {
            push_char(&mut output, ',');
        }
        push_term_stat(&mut output, &stats[i]);
        assert(output@ =~= seq!['['] + comma_joined(items.take(i + 1)));
        i = i + 1;
    }
    assert(items.take(stats@.len() as int) =~= items);
    push_char(&mut output, ']');
    assert(output@ =~= json_array(items));
    output
}

/// An object of members already written.
fn object_of(members: &Vec<String>) -> (text: String)
    ensures
        text@ == json_object(strings_view(members@)),
{
    let ghost items = strings_view(members@);
    let mut output = String::new();
    push_char(&mut output, '{');
    let mut i: usize = 0;
    while i < members.len()
        invariant
            i <= members@.len(),
            items == strings_view(members@),
            output@ == seq!['{'] + comma_joined(items.take(i as int)),
        decreases members@.len() - i,
    {
        proof {
            lemma_comma_joined_push(items.take(i as int), items[i as int]);
            assert(items.take(i + 1) =~= items.take(i as int).push(items[i as int]));
        }
        if i > 0 {
            push_char(&mut output, ',');
        }
        push_str(&mut output, members[i].as_str());
        assert(output@ =~= seq!['{'] + comma_joined(items.take(i + 1)));
        i = i + 1;
    }
    assert(items.take(members@.len() as int) =~= items);
    push_char(&mut output, '}');
    assert(output@ =~= json_object(items));
    output
}

/// The JSON object of one document's metadata.
pub fn serialize_document(document: &DocumentMeta) -> (json: String)
    ensures
        json@ == document_json(document@),
{
    let d = document;
    let mut members: Vec<String> = Vec::new();
    let mut m = String::new();
    push_json_u64_field(&mut m, "id", d.id as u64);
    members.push(m);
    let mut m = String::new();
    push_json_string_field(&mut m, "path", d.path.as_str());
    members.push(m);
    let mut m = String::new();
    push_json_u64_field(&mut m, "length", d.length as u64);
    members.push(m);
    let mut m = String::new();
    push_json_string_field(&mut m, "content", d.content.as_str());
    members.push(m);
    let mut m = String::new();
    let extension = match &d.extension {
        Some(e) => Some(e.as_str()),
        None => None,
    };
    push_json_optional_string_field(&mut m, "extension", extension);
    members.push(m);
    let mut m = String::new();
    push_json_string_field(&mut m, "title", d.title.as_str());
    members.push(m);
    let mut m = String::new();
    push_json_optional_u64_field(&mut m, "modified_unix_timestamp_secs", d.modified_unix_timestamp_secs);
    members.push(m);
    let json = object_of(&members);
    proof {
        let ms = seq![
            json_member("id"@, decimal_text(d@.id)),
            json_member("path"@, json_string(d@.path)),
            json_member("length"@, decimal_text(d@.length)),
            json_member("content"@, json_string(d@.content)),
            json_member("extension"@, json_optional_string(d@.extension)),
            json_member("title"@, json_string(d@.title)),
            json_member("modified_unix_timestamp_secs"@, json_optional_number(d@.modified_unix_timestamp_secs)),
        ];
        assert(strings_view(members@) =~= ms);
    }
    json
}

/// Documents as a JSON array of their objects.
pub fn serialize_documents(documents: &[DocumentMeta]) -> (json: String)
    ensures
        json@ == json_array(documents@.map_values(|d: DocumentMeta| document_json(d@))),
{
    let ghost items = documents@.map_values(|d: DocumentMeta| document_json(d@));
    let mut output = String::new();
    push_char(&mut output, '[');
    let mut i: usize = 0;
    while i < documents.len()
        invariant
            i <= documents@.len(),
            items == documents@.map_values(|d: DocumentMeta| document_json(d@)),
            output@ == seq!['['] + comma_joined(items.take(i as int)),
        decreases documents@.len() - i,
    {
        proof {
            lemma_comma_joined_push(items.take(i as int), items[i as int]);
            assert(items.take(i + 1) =~= items.take(i as int).push(items[i as int]));
        }
        if i > 0 {
            push_char(&mut output, ',');
        }
        let json = serialize_document(&documents[i]);
        push_str(&mut output, json.as_str());
        assert(output@ =~= seq!['['] + comma_joined(items.take(i + 1)));
        i = i + 1;
    }
    assert(items.take(documents@.len() as int) =~= items);
    push_char(&mut output, ']');
    assert(output@ =~= json_array(items));
    output
}

} // verus!
