//! Pieces of the plain-text index format: fields split at a separator
//! char, decimal numbers and escaped text.
use vstd::prelude::*;

use crate::json::{decimal_text, digit_char};
use crate::text::{decimal_value, digit_value, is_ascii_digit};

verus! {

/// `parts` with `sep` between each two of them.
pub open spec fn join_with(parts: Seq<Seq<char>>, sep: char) -> Seq<char>
    decreases parts.len(),
{
    if parts.len() == 0 {
        Seq::empty()
    } else if parts.len() == 1 {
        parts[0]
    } else {
        join_with(parts.drop_last(), sep) + seq![sep] + parts.last()
    }
}

/// `s` cut at each `sep`, as std's `str::split` cuts it: `n` separators
/// give `n + 1` pieces, some of them maybe empty.
pub open spec fn split_on(s: Seq<char>, sep: char) -> Seq<Seq<char>>
    decreases s.len(),
{
    if s.len() == 0 {
        seq![Seq::empty()]
    } else {
        let pieces = split_on(s.drop_last(), sep);
        if s.last() == sep {
            pieces.push(Seq::empty())
        } else {
            pieces.update(pieces.len() - 1, pieces.last().push(s.last()))
        }
    }
}

/// `s` does not contain `c`.
pub open spec fn free_of(s: Seq<char>, c: char) -> bool {
    forall|i: int| 0 <= i < s.len() ==> s[i] != c
}

pub proof fn lemma_split_on_nonempty(s: Seq<char>, sep: char)
    ensures
        split_on(s, sep).len() >= 1,
    decreases s.len(),
{
    if s.len() > 0 {
        lemma_split_on_nonempty(s.drop_last(), sep);
    }
}

/// Chars without the separator extend the last piece.
proof fn lemma_split_extend(z: Seq<char>, y: Seq<char>, sep: char)
    requires
        free_of(y, sep),
    ensures
        split_on(z + y, sep) == split_on(z, sep).update(
            split_on(z, sep).len() - 1,
            split_on(z, sep).last() + y,
        ),
    decreases y.len(),
{
    lemma_split_on_nonempty(z, sep);
    if y.len() == 0 {
        assert(z + y =~= z);
        assert(split_on(z, sep).last() + y =~= split_on(z, sep).last());
        assert(split_on(z, sep).update(split_on(z, sep).len() - 1, split_on(z, sep).last())
            =~= split_on(z, sep));
    } else {
        let y2 = y.drop_last();
        lemma_split_extend(z, y2, sep);
        assert((z + y).drop_last() =~= z + y2);
        assert((z + y).last() == y.last());
        assert(split_on(z, sep).last() + y =~= (split_on(z, sep).last() + y2).push(y.last()));
        lemma_split_on_nonempty(z + y2, sep);
        assert(split_on(z + y, sep) =~= split_on(z, sep).update(
            split_on(z, sep).len() - 1,
            split_on(z, sep).last() + y,
        ));
    }
}

/// Splitting what was joined gives back the parts, when none of them
/// holds the separator.
pub proof fn lemma_split_join(parts: Seq<Seq<char>>, sep: char)
    requires
        parts.len() >= 1,
        forall|i: int| 0 <= i < parts.len() ==> free_of(#[trigger] parts[i], sep),
    ensures
        split_on(join_with(parts, sep), sep) == parts,
    decreases parts.len(),
{
    if parts.len() == 1 {
        lemma_split_extend(Seq::empty(), parts[0], sep);
        assert(Seq::<char>::empty() + parts[0] =~= parts[0]);
        assert(split_on(Seq::<char>::empty(), sep) =~= seq![Seq::<char>::empty()]);
        assert(Seq::<char>::empty() + parts[0] =~= parts[0]);
        assert(split_on(parts[0], sep) =~= parts);
    } else {
        let init = parts.drop_last();
        lemma_split_join(init, sep);
        let j = join_with(init, sep);
        assert(j.push(sep).drop_last() =~= j);
        assert(split_on(j.push(sep), sep) == init.push(Seq::empty()));
        lemma_split_extend(j.push(sep), parts.last(), sep);
        assert(j + seq![sep] + parts.last() =~= j.push(sep) + parts.last());
        assert(Seq::<char>::empty() + parts.last() =~= parts.last());
        assert(split_on(join_with(parts, sep), sep) =~= parts);
    }
}

/// The pieces of `v` between the separators.
pub(crate) fn split_chars(v: &Vec<char>, sep: char) -> (pieces: Vec<Vec<char>>)
    ensures
        pieces@.map_values(|p: Vec<char>| p@) == split_on(v@, sep),
{
    let mut pieces: Vec<Vec<char>> = Vec::new();
    let mut current: Vec<char> = Vec::new();
    for i in 0..v.len()
        invariant
            split_on(v@.take(i as int), sep) == pieces@.map_values(|p: Vec<char>| p@).push(current@),
    {
        let c = v[i];
        assert(v@.take(i + 1).drop_last() =~= v@.take(i as int));
        if c == sep {
            pieces.push(current);
            current = Vec::new();
            assert(split_on(v@.take(i + 1), sep) =~= pieces@.map_values(|p: Vec<char>| p@).push(current@));
        } else {
            let ghost before = current@;
            current.push(c);
            assert(split_on(v@.take(i + 1), sep) =~= pieces@.map_values(|p: Vec<char>| p@).push(current@));
        }
    }
    assert(v@.take(v@.len() as int) =~= v@);
    pieces.push(current);
    assert(pieces@.map_values(|p: Vec<char>| p@) =~= split_on(v@, sep));
    pieces
}

/// The value of a decimal field: a non-empty run of ASCII digits whose
/// value fits in `usize`.
pub open spec fn decimal_field(s: Seq<char>) -> Option<nat> {
    if s.len() > 0 && (forall|i: int| 0 <= i < s.len() ==> is_ascii_digit(#[trigger] s[i]))
        && decimal_value(s) <= usize::MAX {
        Some(decimal_value(s))
    } else {
        None
    }
}

/// The decimal notation of a number is a non-empty run of digits worth
/// that number, without the separators of the format.
pub proof fn lemma_decimal_text(n: nat)
    ensures
        decimal_text(n).len() >= 1,
        forall|i: int| 0 <= i < decimal_text(n).len() ==> is_ascii_digit(#[trigger] decimal_text(n)[i]),
        decimal_value(decimal_text(n)) == n,
    decreases n,
{
    let d = (n % 10) as nat;
    assert(digit_char(d) as u32 == 48 + d);
    assert(digit_value(digit_char(d)) == d);
    if n >= 10 {
        lemma_decimal_text(n / 10);
        let t = decimal_text(n / 10);
        assert(decimal_text(n) == t.push(digit_char(d)));
        assert(decimal_text(n).drop_last() =~= t);
        assert(decimal_text(n).last() == digit_char(d));
        assert((n / 10) * 10 + n % 10 == n) by (nonlinear_arith);
        assert(decimal_value(decimal_text(n)) == decimal_value(t) * 10 + digit_value(digit_char(d)));
        assert forall|i: int| 0 <= i < decimal_text(n).len() implies is_ascii_digit(#[trigger] decimal_text(n)[i]) by {
            if i < t.len() {
                assert(decimal_text(n)[i] == t[i]);
            }
        }
    } else {
        assert(decimal_text(n) =~= seq![digit_char(n)]);
        assert(decimal_text(n).drop_last() =~= Seq::<char>::empty());
        assert(decimal_value(Seq::<char>::empty()) == 0);
        assert(decimal_text(n).last() == digit_char(d));
    }
}

/// A number written in decimal reads back as itself.
pub proof fn lemma_decimal_field_of_text(n: nat)
    requires
        n <= usize::MAX,
    ensures
        decimal_field(decimal_text(n)) == Some(n),
        free_of(decimal_text(n), '\t'),
        free_of(decimal_text(n), '\n'),
        free_of(decimal_text(n), ','),
{
    lemma_decimal_text(n);
    let t = decimal_text(n);
    assert forall|i: int| 0 <= i < t.len() implies t[i] != '\t' && t[i] != '\n' && t[i] != ',' by {
        assert(is_ascii_digit(t[i]));
    }
}

/// Reads a decimal field.
pub(crate) fn parse_decimal(v: &Vec<char>) -> (r: Option<usize>)
    ensures
        match r {
            Some(n) => decimal_field(v@) == Some(n as nat),
            None => decimal_field(v@) is None,
        },
{
    if v.len() == 0 {
        return None;
    }
    let mut value: usize = 0;
    let mut i: usize = 0;
    while i < v.len()
        invariant
            i <= v@.len(),
            forall|j: int| 0 <= j < i ==> is_ascii_digit(#[trigger] v@[j]),
            value == decimal_value(v@.take(i as int)),
        decreases v@.len() - i,
    {
        let c = v[i];
        assert(v@.take(i + 1).drop_last() =~= v@.take(i as int));
        if !('0' <= c && c <= '9') {
            return None;
        }
        let d = (c as u32 - '0' as u32) as usize;
        assert(d == digit_value(c));
        assert(decimal_value(v@.take(i + 1)) == decimal_value(v@.take(i as int)) * 10 + d);
        if value > (usize::MAX - d) / 10 {
            proof {
                lemma_decimal_value_prefix(v@, i + 1);
            }
            return None;
        }
        value = value * 10 + d;
        i = i + 1;
    }
    assert(v@.take(v@.len() as int) =~= v@);
    Some(value)
}

/// The value of a run of digits is at least the value of any prefix of it.
proof fn lemma_decimal_value_prefix(s: Seq<char>, k: int)
    requires
        0 <= k <= s.len(),
    ensures
        decimal_value(s.take(k)) <= decimal_value(s),
    decreases s.len() - k,
{
    if k < s.len() {
        lemma_decimal_value_prefix(s, k + 1);
        assert(s.take(k + 1).drop_last() =~= s.take(k));
    } else {
        assert(s.take(k) =~= s);
    }
}

/// How one char of a stored field is written: backslash, tab, newline and
/// carriage return are escaped with a backslash.
pub open spec fn escape_field_char(c: char) -> Seq<char> {
    if c == '\\' {
        seq!['\\', '\\']
    } else if c == '\t' {
        seq!['\\', 't']
    } else if c == '\n' {
        seq!['\\', 'n']
    } else if c == '\r' {
        seq!['\\', 'r']
    } else {
        seq![c]
    }
}

/// A stored field: every char of `s` escaped.
pub open spec fn escape_field(s: Seq<char>) -> Seq<char>
    decreases s.len(),
{
    if s.len() == 0 {
        Seq::empty()
    } else {
        escape_field_char(s[0]) + escape_field(s.drop_first())
    }
}

/// The char that an escape `\x` stands for.
pub open spec fn escaped_char(x: char) -> Option<char> {
    if x == '\\' {
        Some('\\')
    } else if x == 't' {
        Some('\t')
    } else if x == 'n' {
        Some('\n')
    } else if x == 'r' {
        Some('\r')
    } else {
        None
    }
}

/// The text of a stored field, or none when it holds a backslash that does
/// not start one of the four escapes.
pub open spec fn unescape_field(s: Seq<char>) -> Option<Seq<char>>
    decreases s.len(),
{
    if s.len() == 0 {
        Some(Seq::empty())
    } else if s[0] == '\\' {
        if s.len() < 2 {
            None
        } else {
            match (escaped_char(s[1]), unescape_field(s.skip(2))) {
                (Some(c), Some(rest)) => Some(seq![c] + rest),
                _ => None,
            }
        }
    } else {
        match unescape_field(s.skip(1)) {
            Some(rest) => Some(seq![s[0]] + rest),
            None => None,
        }
    }
}

proof fn lemma_escape_field_push(s: Seq<char>, c: char)
    ensures
        escape_field(s.push(c)) == escape_field(s) + escape_field_char(c),
    decreases s.len(),
{
    if s.len() == 0 {
        assert(seq![c].drop_first() =~= Seq::<char>::empty());
        assert(escape_field(Seq::<char>::empty()) =~= Seq::<char>::empty());
        assert(escape_field(seq![c]) == escape_field_char(c) + escape_field(Seq::<char>::empty()));
        assert(escape_field_char(c) + Seq::<char>::empty() =~= escape_field_char(c));
        assert(escape_field(seq![c]) =~= escape_field_char(c));
        assert(s.push(c) =~= seq![c]);
        assert(escape_field(s) =~= Seq::<char>::empty());
        assert(escape_field(s) + escape_field_char(c) =~= escape_field_char(c));
    } else {
        lemma_escape_field_push(s.drop_first(), c);
        assert(s.push(c).drop_first() =~= s.drop_first().push(c));
        assert(s.push(c)[0] == s[0]);
        assert(escape_field(s.push(c)) == escape_field_char(s[0]) + escape_field(s.drop_first().push(c)));
        assert(escape_field(s) == escape_field_char(s[0]) + escape_field(s.drop_first()));
        assert(escape_field_char(s[0]) + (escape_field(s.drop_first()) + escape_field_char(c))
            =~= (escape_field_char(s[0]) + escape_field(s.drop_first())) + escape_field_char(c));
    }
}

/// An escaped field reads back as the text it was made from, and holds no
/// tab and no newline.
pub proof fn lemma_unescape_escape(s: Seq<char>)
    ensures
        unescape_field(escape_field(s)) == Some(s),
        free_of(escape_field(s), '\t'),
        free_of(escape_field(s), '\n'),
    decreases s.len(),
{
    if s.len() > 0 {
        let rest = s.drop_first();
        lemma_unescape_escape(rest);
        let e = escape_field(s);
        let ec = escape_field_char(s[0]);
        assert(e == ec + escape_field(rest));
        if ec.len() == 2 {
            assert(e.skip(2) =~= escape_field(rest));
            assert(e[0] == '\\');
        } else {
            assert(e.skip(1) =~= escape_field(rest));
            assert(e[0] == s[0]);
        }
        assert(seq![s[0]] + rest =~= s);
        assert forall|i: int| 0 <= i < e.len() implies e[i] != '\t' && e[i] != '\n' by {
            if i >= ec.len() {
                assert(e[i] == escape_field(rest)[i - ec.len()]);
            }
        }
    } else {
        assert(escape_field(s) =~= Seq::<char>::empty());
    }
}

/// Writes `s` as a stored field.
pub(crate) fn escape_chars(s: &Vec<char>) -> (r: Vec<char>)
    ensures
        r@ == escape_field(s@),
{
    let mut r: Vec<char> = Vec::new();
    for i in 0..s.len()
        invariant
            r@ == escape_field(s@.take(i as int)),
    {
        let c = s[i];
        proof {
            lemma_escape_field_push(s@.take(i as int), c);
            assert(s@.take(i + 1) =~= s@.take(i as int).push(c));
        }
        let ghost before = r@;
        if c == '\\' {
            r.push('\\');
            r.push('\\');
        } else if c == '\t' {
            r.push('\\');
            r.push('t');
        } else if c == '\n' {
            r.push('\\');
            r.push('n');
        } else if c == '\r' {
            r.push('\\');
            r.push('r');
        } else {
            r.push(c);
        }
        assert(r@ =~= before + escape_field_char(c));
    }
    assert(s@.take(s@.len() as int) =~= s@);
    r
}

/// Reads a stored field.
pub(crate) fn unescape_chars(v: &Vec<char>) -> (r: Option<Vec<char>>)
    ensures
        match r {
            Some(t) => unescape_field(v@) == Some(t@),
            None => unescape_field(v@) is None,
        },
{
    let mut out: Vec<char> = Vec::new();
    let mut i: usize = 0;
    proof {
        assert(v@.skip(0) =~= v@);
        match unescape_field(v@) {
            Some(r) => {
                assert(out@ + r =~= r);
            },
            None => {},
        }
    }
    while i < v.len()
        invariant
            i <= v@.len(),
            unescape_field(v@) == match unescape_field(v@.skip(i as int)) {
                Some(rest) => Some(out@ + rest),
                None => None,
            },
        decreases v@.len() - i,
    {
        let ghost rest = v@.skip(i as int);
        if v[i] == '\\' {
            if i + 1 >= v.len() {
                return None;
            }
            let x = v[i + 1];
            let c = if x == '\\' {
                '\\'
            } else if x == 't' {
                '\t'
            } else if x == 'n' {
                '\n'
            } else if x == 'r' {
                '\r'
            } else {
                return None;
            };
            assert(rest[1] == x);
            assert(escaped_char(x) == Some(c));
            assert(rest.skip(2) =~= v@.skip(i + 2));
            let ghost before = out@;
            out.push(c);
            proof {
                match unescape_field(v@.skip(i + 2)) {
                    Some(r2) => {
                        assert(before + (seq![c] + r2) =~= out@ + r2);
                    },
                    None => {},
                }
            }
            i = i + 2;
        } else {
            let c = v[i];
            assert(rest[0] == c);
            assert(rest.skip(1) =~= v@.skip(i + 1));
            let ghost before = out@;
            out.push(c);
            proof {
                match unescape_field(v@.skip(i + 1)) {
                    Some(r2) => {
                        assert(before + (seq![c] + r2) =~= out@ + r2);
                    },
                    None => {},
                }
            }
            i = i + 1;
        }
    }
    assert(v@.skip(v@.len() as int) =~= Seq::<char>::empty());
    assert(out@ + Seq::<char>::empty() =~= out@);
    Some(out)
}

/// `parts` with the text `sep` between each two of them.
pub open spec fn join_with_text(parts: Seq<Seq<char>>, sep: Seq<char>) -> Seq<char>
    decreases parts.len(),
{
    if parts.len() == 0 {
        Seq::empty()
    } else if parts.len() == 1 {
        parts[0]
    } else {
        join_with_text(parts.drop_last(), sep) + sep + parts.last()
    }
}

/// A count given as a `u64`, as a `usize`; a message naming it when it does
/// not fit.
pub fn usize_from_u64(value: u64, label: &str) -> (r: Result<usize, String>)
    ensures
        match r {
            Ok(n) => value <= usize::MAX && n == value,
            Err(m) => value > usize::MAX && m@ == label@ + " is too large"@,
        },
{
    if (value as u128) <= (usize::MAX as u128) {
        Ok(value as usize)
    } else {
        let mut m = label.to_owned();
        m.append(" is too large");
        Err(m)
    }
}

} // verus!
