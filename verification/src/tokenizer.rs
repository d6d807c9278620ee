//! Tokenization: lowercased maximal runs of alphanumeric chars, with their
//! positions and byte offsets in the text they come from.
use vstd::prelude::*;
use vstd::utf8::*;

use crate::text::{
    alphanumeric, byte_offset, char_utf8_width, is_alphanumeric_char, lemma_byte_offset_monotonic,
    lemma_byte_offset_step, lemma_encode_utf8_concat, lowercase, lowercase_char, push_char,
    str_byte_len, utf8_len,
};

verus! {

/// A token together with its index among the tokens of the text and the
/// byte range `start..end` that it covers in the input text.
#[derive(Debug, Clone, PartialEq, Eq)]
pub struct PositionedToken {
    pub term: String,
    pub position: usize,
    pub start: usize,
    pub end: usize,
}

/// The mathematical value of a token.
pub struct TokenView {
    pub term: Seq<char>,
    pub position: int,
    pub start: int,
    pub end: int,
}

impl View for PositionedToken {
    type V = TokenView;

    open spec fn view(&self) -> TokenView {
        TokenView {
            term: self.term@,
            position: self.position as int,
            start: self.start as int,
            end: self.end as int,
        }
    }
}

/// Chars that belong to tokens.
pub open spec fn is_word_char(c: char) -> bool {
    alphanumeric(c)
}

/// The spans of the tokens of `s`: its maximal runs of word chars, as
/// half-open ranges of char indices, from left to right.
pub open spec fn token_spans(s: Seq<char>) -> Seq<(int, int)>
    decreases s.len(),
{
    if s.len() == 0 {
        Seq::empty()
    } else {
        let prev = token_spans(s.drop_last());
        let i = s.len() - 1;
        if !is_word_char(s[i]) {
            prev
        } else if i > 0 && is_word_char(s[i - 1]) {
            prev.update(prev.len() - 1, (prev.last().0, i + 1))
        } else {
            prev.push((i, i + 1))
        }
    }
}

/// The lowercase mapping of every char of `s`, concatenated.
pub open spec fn lowercase_all(s: Seq<char>) -> Seq<char>
    decreases s.len(),
{
    if s.len() == 0 {
        Seq::empty()
    } else {
        lowercase_all(s.drop_last()) + lowercase(s.last())
    }
}

/// The token of `s` that covers `span` and has index `k`.
pub open spec fn span_token(s: Seq<char>, span: (int, int), k: int) -> TokenView {
    TokenView {
        term: lowercase_all(s.subrange(span.0, span.1)),
        position: k,
        start: byte_offset(s, span.0),
        end: byte_offset(s, span.1),
    }
}

/// The `k`-th token of `s`.
pub open spec fn token_at(s: Seq<char>, k: int) -> TokenView {
    span_token(s, token_spans(s)[k], k)
}

/// The terms of the tokens of `s`, in order.
pub open spec fn token_terms(s: Seq<char>) -> Seq<Seq<char>> {
    Seq::new(token_spans(s).len(), |k: int| token_at(s, k).term)
}

/// Each span is a non-empty run of word chars inside `s`, and the spans come
/// from left to right with at least one char between two of them.
pub open spec fn spans_are_ordered_runs(s: Seq<char>, sp: Seq<(int, int)>) -> bool {
    &&& forall|k: int| 0 <= k < sp.len() ==> 0 <= #[trigger] sp[k].0 < sp[k].1 <= s.len()
    &&& forall|k: int, j: int|
        #![trigger sp[k], s[j]]
        0 <= k < sp.len() && sp[k].0 <= j < sp[k].1 ==> is_word_char(s[j])
    &&& forall|k: int| 0 <= k < sp.len() - 1 ==> #[trigger] sp[k].1 < sp[k + 1].0
}

/// No span can be extended by a word char on either side.
pub open spec fn spans_are_maximal(s: Seq<char>, sp: Seq<(int, int)>) -> bool {
    &&& forall|k: int| 0 <= k < sp.len() ==> (#[trigger] sp[k].0 == 0 || !is_word_char(s[sp[k].0 - 1]))
    &&& forall|k: int| 0 <= k < sp.len() ==> (#[trigger] sp[k].1 == s.len() || !is_word_char(s[sp[k].1]))
}

/// Every word char lies in some span.
pub open spec fn spans_cover_word_chars(s: Seq<char>, sp: Seq<(int, int)>) -> bool {
    forall|j: int|
        0 <= j < s.len() && is_word_char(#[trigger] s[j]) ==> exists|k: int|
            #![trigger sp[k]]
            0 <= k < sp.len() && sp[k].0 <= j < sp[k].1
}

/// The spans of `s` are exactly its maximal runs of word chars.
pub open spec fn spans_are_maximal_runs(s: Seq<char>, sp: Seq<(int, int)>) -> bool {
    &&& spans_are_ordered_runs(s, sp)
    &&& spans_are_maximal(s, sp)
    &&& spans_cover_word_chars(s, sp)
}

/// How the spans of `s` end, depending on its last char.
pub open spec fn spans_end_shape(s: Seq<char>, sp: Seq<(int, int)>) -> bool {
    &&& s.len() > 0 && is_word_char(s.last()) ==> sp.len() > 0 && sp.last().1 == s.len()
    &&& s.len() == 0 || !is_word_char(s.last()) ==> forall|k: int|
        0 <= k < sp.len() ==> #[trigger] sp[k].1 < s.len()
    &&& sp.len() <= s.len()
}

proof fn lemma_spans_step_non_word(s: Seq<char>)
    requires
        s.len() > 0,
        !is_word_char(s.last()),
        spans_are_maximal_runs(s.drop_last(), token_spans(s.drop_last())),
        spans_end_shape(s.drop_last(), token_spans(s.drop_last())),
    ensures
        spans_are_maximal_runs(s, token_spans(s)),
        spans_end_shape(s, token_spans(s)),
{
    let t = s.drop_last();
    let sp = token_spans(s);
    assert(sp == token_spans(t));
    assert forall|k: int| 0 <= k < sp.len() implies (#[trigger] sp[k].1 == s.len()
        || !is_word_char(s[sp[k].1])) by {
        assert(0 <= sp[k].0 < sp[k].1 <= t.len());
        if sp[k].1 < t.len() {
            assert(!is_word_char(t[sp[k].1]));
        } else {
            assert(s[sp[k].1] == s.last());
        }
    }
    assert forall|k: int| 0 <= k < sp.len() implies (#[trigger] sp[k].0 == 0
        || !is_word_char(s[sp[k].0 - 1])) by {
        if sp[k].0 != 0 {
            assert(!is_word_char(t[sp[k].0 - 1]));
        }
    }
    assert forall|k: int, j: int|
        #![trigger sp[k], s[j]]
        0 <= k < sp.len() && sp[k].0 <= j < sp[k].1 implies is_word_char(s[j]) by {
        assert(is_word_char(t[j]));
    }
    assert forall|j: int| 0 <= j < s.len() && is_word_char(#[trigger] s[j]) implies exists|k: int|
        #![trigger sp[k]]
        0 <= k < sp.len() && sp[k].0 <= j < sp[k].1 by {
        assert(is_word_char(t[j]));
    }
}

proof fn lemma_spans_step_extend(s: Seq<char>)
    requires
        s.len() > 1,
        is_word_char(s.last()),
        is_word_char(s[s.len() - 2]),
        spans_are_maximal_runs(s.drop_last(), token_spans(s.drop_last())),
        spans_end_shape(s.drop_last(), token_spans(s.drop_last())),
    ensures
        spans_are_maximal_runs(s, token_spans(s)),
        spans_end_shape(s, token_spans(s)),
{
    let t = s.drop_last();
    let prev = token_spans(t);
    let sp = token_spans(s);
    let i = s.len() - 1;
    let n = prev.len() - 1;
    assert(t.last() == s[i - 1]);
    assert(prev.len() > 0 && prev.last().1 == t.len());
    assert(sp == prev.update(n, (prev[n].0, i + 1)));
    assert forall|k: int, j: int|
        #![trigger sp[k], s[j]]
        0 <= k < sp.len() && sp[k].0 <= j < sp[k].1 implies is_word_char(s[j]) by {
        if j < t.len() {
            assert(prev[k].0 <= j < prev[k].1);
            assert(is_word_char(t[j]));
        }
    }
    assert forall|k: int| 0 <= k < sp.len() implies (#[trigger] sp[k].0 == 0
        || !is_word_char(s[sp[k].0 - 1])) by {
        assert(sp[k].0 == prev[k].0);
        if prev[k].0 != 0 {
            assert(!is_word_char(t[prev[k].0 - 1]));
        }
    }
    assert forall|k: int| 0 <= k < sp.len() implies (#[trigger] sp[k].1 == s.len()
        || !is_word_char(s[sp[k].1])) by {
        if k < n {
            assert(sp[k] == prev[k]);
            assert(prev[k].1 < prev[k + 1].0);
            assert(0 <= prev[k + 1].0 < prev[k + 1].1 <= t.len());
            assert(prev[k].1 == t.len() || !is_word_char(t[prev[k].1]));
            assert(!is_word_char(t[prev[k].1]));
            assert(s[sp[k].1] == t[prev[k].1]);
        }
    }
    assert forall|k: int| 0 <= k < sp.len() - 1 implies #[trigger] sp[k].1 < sp[k + 1].0 by {
        assert(prev[k].1 < prev[k + 1].0);
    }
    assert forall|j: int| 0 <= j < s.len() && is_word_char(#[trigger] s[j]) implies exists|k: int|
        #![trigger sp[k]]
        0 <= k < sp.len() && sp[k].0 <= j < sp[k].1 by {
        if j == i {
            assert(sp[n].0 <= j < sp[n].1);
        } else {
            assert(is_word_char(t[j]));
            let k = choose|k: int| #![trigger prev[k]] 0 <= k < prev.len() && prev[k].0 <= j < prev[k].1;
            assert(sp[k].0 <= j < sp[k].1);
        }
    }
}

proof fn lemma_spans_step_start(s: Seq<char>)
    requires
        s.len() > 0,
        is_word_char(s.last()),
        s.len() == 1 || !is_word_char(s[s.len() - 2]),
        spans_are_maximal_runs(s.drop_last(), token_spans(s.drop_last())),
        spans_end_shape(s.drop_last(), token_spans(s.drop_last())),
    ensures
        spans_are_maximal_runs(s, token_spans(s)),
        spans_end_shape(s, token_spans(s)),
{
    let t = s.drop_last();
    let prev = token_spans(t);
    let sp = token_spans(s);
    let i = s.len() - 1;
    assert(sp == prev.push((i, i + 1)));
    assert(i > 0 ==> t.last() == s[i - 1]);
    assert forall|k: int, j: int|
        #![trigger sp[k], s[j]]
        0 <= k < sp.len() && sp[k].0 <= j < sp[k].1 implies is_word_char(s[j]) by {
        if k < prev.len() {
            assert(prev[k].0 <= j < prev[k].1);
            assert(is_word_char(t[j]));
        }
    }
    assert forall|k: int| 0 <= k < sp.len() implies (#[trigger] sp[k].0 == 0
        || !is_word_char(s[sp[k].0 - 1])) by {
        if k < prev.len() && prev[k].0 != 0 {
            assert(!is_word_char(t[prev[k].0 - 1]));
        }
    }
    assert forall|k: int| 0 <= k < sp.len() implies (#[trigger] sp[k].1 == s.len()
        || !is_word_char(s[sp[k].1])) by {
        if k < prev.len() {
            assert(0 <= prev[k].0 < prev[k].1 <= t.len());
            if prev[k].1 < t.len() {
                assert(!is_word_char(t[prev[k].1]));
            } else {
                assert(prev[k].0 <= i - 1 < prev[k].1);
                assert(is_word_char(t[i - 1]));
            }
        }
    }
    assert forall|k: int| 0 <= k < sp.len() - 1 implies #[trigger] sp[k].1 < sp[k + 1].0 by {
        if k + 1 < prev.len() {
            assert(prev[k].1 < prev[k + 1].0);
        } else {
            assert(0 <= prev[k].0 < prev[k].1 <= t.len());
            if prev[k].1 == t.len() {
                assert(prev[k].0 <= i - 1 < prev[k].1);
                assert(is_word_char(t[i - 1]));
            }
        }
    }
    assert forall|j: int| 0 <= j < s.len() && is_word_char(#[trigger] s[j]) implies exists|k: int|
        #![trigger sp[k]]
        0 <= k < sp.len() && sp[k].0 <= j < sp[k].1 by {
        if j == i {
            assert(sp[prev.len() as int].0 <= j < sp[prev.len() as int].1);
        } else {
            assert(is_word_char(t[j]));
            let k = choose|k: int| #![trigger prev[k]] 0 <= k < prev.len() && prev[k].0 <= j < prev[k].1;
            assert(sp[k].0 <= j < sp[k].1);
        }
    }
}

/// The tokens of a text are exactly its maximal runs of alphanumeric chars,
/// from left to right.
pub proof fn lemma_token_spans_are_maximal_runs(s: Seq<char>)
    ensures
        spans_are_maximal_runs(s, token_spans(s)),
        spans_end_shape(s, token_spans(s)),
    decreases s.len(),
{
    if s.len() > 0 {
        lemma_token_spans_are_maximal_runs(s.drop_last());
        let i = s.len() - 1;
        if !is_word_char(s[i]) {
            lemma_spans_step_non_word(s);
        } else if i > 0 && is_word_char(s[i - 1]) {
            lemma_spans_step_extend(s);
        } else {
            lemma_spans_step_start(s);
        }
    }
}

/// The chars of `text`'s lowercase mapping that have been pushed onto
/// `current`, and the state of the scan, after the first `i` chars.
pub open spec fn scan_state_ok(
    s: Seq<char>,
    i: int,
    tokens: Seq<PositionedToken>,
    current: Seq<char>,
    start: Option<usize>,
) -> bool {
    let sp = token_spans(s.take(i));
    let open = i > 0 && is_word_char(s[i - 1]);
    &&& (current.len() > 0 <==> open)
    &&& open ==> {
        &&& sp.len() > 0
        &&& tokens.len() == sp.len() - 1
        &&& sp.last().1 == i
        &&& current == lowercase_all(s.subrange(sp.last().0, i))
        &&& start is Some
        &&& start->0 == byte_offset(s, sp.last().0)
    }
    &&& !open ==> tokens.len() == sp.len() && start is None
    &&& forall|k: int| 0 <= k < tokens.len() ==> #[trigger] tokens[k]@ == span_token(s, sp[k], k)
    &&& forall|k: int| 0 <= k < tokens.len() ==> #[trigger] tokens[k].term@.len() > 0
}

proof fn lemma_lowercase_all_push(s: Seq<char>, a: int, i: int)
    requires
        0 <= a <= i < s.len(),
    ensures
        lowercase_all(s.subrange(a, i + 1)) == lowercase_all(s.subrange(a, i)) + lowercase(s[i]),
{
    assert(s.subrange(a, i + 1).drop_last() =~= s.subrange(a, i));
}

proof fn lemma_lowercase_all_single(c: char)
    ensures
        lowercase_all(seq![c]) == lowercase(c),
{
    assert(seq![c].drop_last() =~= Seq::<char>::empty());
    assert(seq![c].last() == c);
    assert(lowercase_all(Seq::<char>::empty()) == Seq::<char>::empty());
    assert(Seq::<char>::empty() + lowercase(c) =~= lowercase(c));
}

proof fn lemma_scan_facts(s: Seq<char>, i: int)
    requires
        0 <= i < s.len(),
    ensures
        token_spans(s.take(i + 1)) == (if !is_word_char(s[i]) {
            token_spans(s.take(i))
        } else if i > 0 && is_word_char(s[i - 1]) {
            token_spans(s.take(i)).update(
                token_spans(s.take(i)).len() - 1,
                (token_spans(s.take(i)).last().0, i + 1),
            )
        } else {
            token_spans(s.take(i)).push((i, i + 1))
        }),
        spans_end_shape(s.take(i), token_spans(s.take(i))),
        spans_are_maximal_runs(s.take(i), token_spans(s.take(i))),
{
    lemma_token_spans_are_maximal_runs(s.take(i));
    assert(s.take(i + 1).drop_last() =~= s.take(i));
    assert(s.take(i + 1).last() == s[i]);
    assert(i > 0 ==> s.take(i).last() == s[i - 1]);
    assert(s.take(i + 1)[i] == s[i]);
    assert(i > 0 ==> s.take(i + 1)[i - 1] == s[i - 1]);
}

proof fn lemma_scan_step_word(
    s: Seq<char>,
    i: int,
    tokens: Seq<PositionedToken>,
    before: Seq<char>,
    start_before: Option<usize>,
    after: Seq<char>,
    start_after: Option<usize>,
)
    requires
        0 <= i < s.len(),
        is_word_char(s[i]),
        scan_state_ok(s, i, tokens, before, start_before),
        after == before + lowercase(s[i]),
        lowercase(s[i]).len() >= 1,
        start_before is None ==> start_after is Some && start_after->0 == byte_offset(s, i),
        start_before is Some ==> start_after == start_before,
    ensures
        scan_state_ok(s, i + 1, tokens, after, start_after),
{
    lemma_scan_facts(s, i);
    let sp = token_spans(s.take(i));
    let sp2 = token_spans(s.take(i + 1));
    assert(s.take(i + 1).last() == s[i]);
    if i > 0 && is_word_char(s[i - 1]) {
        assert(s.take(i).last() == s[i - 1]);
        lemma_lowercase_all_push(s, sp.last().0, i);
    } else {
        assert(s.subrange(i, i + 1) =~= seq![s[i]]);
        lemma_lowercase_all_single(s[i]);
        assert(before =~= Seq::<char>::empty());
        assert(after =~= lowercase(s[i]));
    }
    assert forall|k: int| 0 <= k < tokens.len() implies #[trigger] tokens[k]@ == span_token(
        s,
        sp2[k],
        k,
    ) by {
        assert(sp2[k] == sp[k]);
    }
    assert forall|k: int| 0 <= k < tokens.len() implies #[trigger] tokens[k].term@.len() > 0 by {}
}

proof fn lemma_scan_step_close(
    s: Seq<char>,
    i: int,
    tokens: Seq<PositionedToken>,
    current: Seq<char>,
    start: Option<usize>,
    token: PositionedToken,
)
    requires
        0 <= i < s.len(),
        !is_word_char(s[i]),
        current.len() > 0,
        scan_state_ok(s, i, tokens, current, start),
        token.term@ == current,
        token.position == tokens.len(),
        start == Some(token.start),
        token.end == byte_offset(s, i),
    ensures
        scan_state_ok(s, i + 1, tokens.push(token), Seq::empty(), None),
{
    lemma_scan_facts(s, i);
    assert(s.take(i + 1).last() == s[i]);
    let sp = token_spans(s.take(i));
    let t2 = tokens.push(token);
    assert forall|k: int| 0 <= k < t2.len() implies #[trigger] t2[k]@ == span_token(s, sp[k], k) by {
        if k == tokens.len() {
            assert(k == sp.len() - 1);
        }
    }
}

proof fn lemma_scan_step_idle(
    s: Seq<char>,
    i: int,
    tokens: Seq<PositionedToken>,
    current: Seq<char>,
    start: Option<usize>,
)
    requires
        0 <= i < s.len(),
        !is_word_char(s[i]),
        current.len() == 0,
        scan_state_ok(s, i, tokens, current, start),
    ensures
        scan_state_ok(s, i + 1, tokens, current, start),
{
    lemma_scan_facts(s, i);
    assert(s.take(i + 1).last() == s[i]);
}

proof fn lemma_scan_finish_closed(
    s: Seq<char>,
    tokens: Seq<PositionedToken>,
    current: Seq<char>,
    start: Option<usize>,
)
    requires
        scan_state_ok(s, s.len() as int, tokens, current, start),
        current.len() == 0,
    ensures
        tokens.len() == token_spans(s).len(),
        forall|k: int| 0 <= k < tokens.len() ==> #[trigger] tokens[k]@ == token_at(s, k),
{
    assert(s.take(s.len() as int) =~= s);
}

proof fn lemma_scan_finish_open(
    s: Seq<char>,
    tokens: Seq<PositionedToken>,
    current: Seq<char>,
    start: Option<usize>,
    last: PositionedToken,
)
    requires
        scan_state_ok(s, s.len() as int, tokens, current, start),
        current.len() > 0,
        last.term@ == current,
        last.position == tokens.len(),
        start == Some(last.start),
        last.end == utf8_len(s),
    ensures
        tokens.push(last).len() == token_spans(s).len(),
        forall|k: int|
            0 <= k < tokens.push(last).len() ==> #[trigger] tokens.push(last)[k]@ == token_at(s, k),
        forall|k: int|
            0 <= k < tokens.push(last).len() ==> #[trigger] tokens.push(last)[k].term@.len() > 0,
{
    assert(s.take(s.len() as int) =~= s);
    assert(byte_offset(s, s.len() as int) == utf8_len(s));
    let all = tokens.push(last);
    assert forall|k: int| 0 <= k < all.len() implies #[trigger] all[k]@ == token_at(s, k) by {
        if k < tokens.len() {
            assert(all[k] == tokens[k]);
        }
    }
}

proof fn lemma_byte_offset_zero(s: Seq<char>)
    ensures
        byte_offset(s, 0) == 0,
{
    assert(s.take(0) =~= Seq::<char>::empty());
}

/// Splits `text` into tokens: lowercased maximal runs of alphanumeric chars,
/// each with its index and the byte range it covers in `text`.
pub fn tokenize_with_positions(text: &str) -> (tokens: Vec<PositionedToken>)
    ensures
        tokens@.len() == token_spans(text@).len(),
        forall|k: int| 0 <= k < tokens@.len() ==> #[trigger] tokens@[k]@ == token_at(text@, k),
        forall|k: int| 0 <= k < tokens@.len() ==> #[trigger] tokens@[k].term@.len() > 0,
{
    let ghost s = text@;
    let total = str_byte_len(text);
    let mut tokens: Vec<PositionedToken> = Vec::new();
    let mut current = String::new();
    let mut start: Option<usize> = None;
    let mut index: usize = 0;
    proof {
        assert(s.take(0) =~= Seq::<char>::empty());
        lemma_byte_offset_zero(s);
    }
    for ch in it: text.chars()
        invariant
            it.seq() == s,
            0 <= it.index() <= s.len(),
            total == utf8_len(s),
            index == byte_offset(s, it.index()),
            scan_state_ok(s, it.index(), tokens@, current@, start),
    {
        let ghost i = it.index();
        assert(ch == s[i]);
        proof {
            lemma_byte_offset_step(s, i);
        }
        if is_alphanumeric_char(ch) {
            let ghost start_before = start;
            if start.is_none() {
                start = Some(index);
            }
            let lower = lowercase_char(ch);
            let ghost before = current@;
            for j in 0..lower.len()
                invariant
                    current@ == before + lower@.take(j as int),
            {
                push_char(&mut current, lower[j]);
                assert(lower@.take(j + 1) =~= lower@.take(j as int).push(lower@[j as int]));
            }
            proof {
                assert(lower@.take(lower@.len() as int) =~= lower@);
                lemma_scan_step_word(s, i, tokens@, before, start_before, current@, start);
            }
        } else if !current.as_str().is_empty() {
            let position = tokens.len();
            let token_start = match start {
                Some(value) => value,
                None => index,
            };
            let ghost old_tokens = tokens@;
            let ghost old_current = current@;
            let ghost old_start = start;
            let term = current;
            current = String::new();
            start = None;
            let token = PositionedToken { term, position, start: token_start, end: index };
            proof {
                lemma_scan_step_close(s, i, old_tokens, old_current, old_start, token);
            }
            tokens.push(token);
        } else {
            proof {
                lemma_scan_step_idle(s, i, tokens@, current@, start);
            }
        }
        index = index + char_utf8_width(ch);
    }
    let ghost closed = tokens@;
    let ghost rest = current@;
    if !current.as_str().is_empty() {
        let position = tokens.len();
        let token_start = match start {
            Some(value) => value,
            None => total,
        };
        let token = PositionedToken { term: current, position, start: token_start, end: total };
        proof {
            lemma_scan_finish_open(s, closed, rest, start, token);
        }
        tokens.push(token);
    } else {
        proof {
            lemma_scan_finish_closed(s, closed, rest, start);
        }
    }
    tokens
}

/// Splits `text` into its lowercased alphanumeric tokens.
pub fn tokenize(text: &str) -> (terms: Vec<String>)
    ensures
        terms@.len() == token_spans(text@).len(),
        forall|k: int| 0 <= k < terms@.len() ==> #[trigger] terms@[k]@ == token_terms(text@)[k],
        forall|k: int| 0 <= k < terms@.len() ==> #[trigger] terms@[k]@.len() > 0,
{
    let tokens = tokenize_with_positions(text);
    let mut terms: Vec<String> = Vec::new();
    for k in 0..tokens.len()
        invariant
            tokens@.len() == token_spans(text@).len(),
            forall|m: int| 0 <= m < tokens@.len() ==> #[trigger] tokens@[m]@ == token_at(text@, m),
            forall|m: int| 0 <= m < tokens@.len() ==> #[trigger] tokens@[m].term@.len() > 0,
            terms@.len() == k,
            forall|m: int| 0 <= m < k ==> #[trigger] terms@[m]@.len() > 0,
            forall|m: int| 0 <= m < k ==> #[trigger] terms@[m]@ == token_terms(text@)[m],
    {
        let term = tokens[k].term.clone();
        assert(term@ == tokens@[k as int]@.term);
        terms.push(term);
    }
    terms
}

/// Tokens come in text order: each covers a non-empty byte range of the
/// text, the ranges do not touch, and a token's position is its index.
pub proof fn lemma_token_byte_ranges(s: Seq<char>)
    ensures
        forall|k: int|
            #![trigger token_at(s, k)]
            0 <= k < token_spans(s).len() ==> {
                &&& token_at(s, k).position == k
                &&& 0 <= token_at(s, k).start < token_at(s, k).end <= utf8_len(s)
            },
        forall|k: int|
            #![trigger token_at(s, k), token_at(s, k + 1)]
            0 <= k < token_spans(s).len() - 1 ==> token_at(s, k).end < token_at(s, k + 1).start,
{
    lemma_token_spans_are_maximal_runs(s);
    let sp = token_spans(s);
    assert forall|k: int| 0 <= k < sp.len() implies {
        &&& token_at(s, k).position == k
        &&& 0 <= token_at(s, k).start < token_at(s, k).end <= utf8_len(s)
    } by {
        assert(0 <= sp[k].0 < sp[k].1 <= s.len());
        lemma_byte_offset_monotonic(s, 0, sp[k].0);
        lemma_byte_offset_monotonic(s, sp[k].0, sp[k].1);
    }
    assert forall|k: int| 0 <= k < sp.len() - 1 implies token_at(s, k).end < token_at(
        s,
        k + 1,
    ).start by {
        assert(sp[k].1 < sp[k + 1].0);
        assert(0 <= sp[k + 1].0 < sp[k + 1].1 <= s.len());
        lemma_byte_offset_monotonic(s, sp[k].1, sp[k + 1].0);
    }
}

/// The byte range of a token is exactly the UTF-8 encoding of the chars it
/// was made from, and its term is their lowercase mapping: slicing the text
/// with a token's offsets gives back its spelling in the text.
pub proof fn lemma_token_byte_range_is_source(s: Seq<char>, k: int)
    requires
        0 <= k < token_spans(s).len(),
    ensures
        encode_utf8(s).subrange(token_at(s, k).start, token_at(s, k).end) == encode_utf8(
            s.subrange(token_spans(s)[k].0, token_spans(s)[k].1),
        ),
        token_at(s, k).term == lowercase_all(s.subrange(token_spans(s)[k].0, token_spans(s)[k].1)),
        forall|j: int|
            token_spans(s)[k].0 <= j < token_spans(s)[k].1 ==> is_word_char(#[trigger] s[j]),
{
    let a = token_spans(s)[k].0;
    let b = token_spans(s)[k].1;
    assert(0 <= a < b <= s.len() && forall|j: int| a <= j < b ==> is_word_char(#[trigger] s[j])) by {
        lemma_token_spans_are_maximal_runs(s);
        assert forall|j: int| a <= j < b implies is_word_char(#[trigger] s[j]) by {
            assert(token_spans(s)[k].0 <= j < token_spans(s)[k].1);
        }
    }
    let mid = s.subrange(a, b);
    assert(s.take(b) =~= s.take(a) + mid);
    lemma_encode_utf8_concat(s.take(a), mid);
    assert(s =~= s.take(b) + s.skip(b));
    lemma_encode_utf8_concat(s.take(b), s.skip(b));
    let ea = encode_utf8(s.take(a));
    let em = encode_utf8(mid);
    let e = encode_utf8(s);
    assert(e == ea + em + encode_utf8(s.skip(b)));
    assert(token_at(s, k).start == ea.len());
    assert(token_at(s, k).end == ea.len() + em.len());
    assert(e.subrange(ea.len() as int, (ea.len() + em.len()) as int) =~= em);
}

} // verus!
