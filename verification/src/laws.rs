//! Properties that relate the engine's operations to each other, stated
//! over the specifications that their contracts use.
use vstd::prelude::*;

use crate::index::{
    docs_containing, holds_term_of, in_vocabulary, is_least_slop, is_phrase_window, is_top_terms,
    lemma_positions_of, lemma_ranks_before_strict_total_order, lemma_sorted_vocabulary, phrase_slop,
    positions_of, ranks_before, single_term, sorted_vocabulary, stat_of, vocabulary_set, window_slop,
    TermStatView,
};
use crate::document::DocumentView;
use crate::order::lemma_term_lt_strict_total_order;
use crate::query::{
    apply_item, apply_items, fuzzy_term_of, item_after_sign, item_at, lemma_item_at_advances,
    lemma_scan_to_char_bounds, lemma_scan_to_whitespace_bounds, metadata_filter_of,
    parse_query_spec, query_items, query_items_from, scan_to_char, sign_at, ParsedQueryView,
    PhraseView, QueryItem,
};
use crate::text::{lemma_skip_whitespace_bounds, skip_whitespace};
use crate::search::{document_matches, matching_docs, path_allowed, phrase_found};
use crate::format::join_with_text;
use crate::text::{ascii_alphanumeric, ascii_lower_char, char_alphanumeric, decimal_value};
use crate::index::total_occurrences;
use crate::order::term_lt;
use crate::query::{lemma_scan_digits_bounds, saturate, scan_digits, slop_at};
use crate::tokenizer::{
    is_word_char, lemma_token_spans_are_maximal_runs, lowercase_all, token_at, token_spans,
    token_terms,
};

verus! {

/// Adding a document raises the document frequency of exactly the terms it
/// contains, by one, leaves the positions of every term in the earlier
/// documents as they were, and makes the vocabulary the union of the old one
/// and the document's terms.
pub proof fn lemma_add_document_frequencies(model: Seq<Seq<Seq<char>>>, doc: Seq<Seq<char>>, t: Seq<char>)
    ensures
        docs_containing(model.push(doc), t).len() == docs_containing(model, t).len() + if doc.contains(t) {
            1int
        } else {
            0int
        },
        forall|d: int| 0 <= d < model.len() ==> positions_of(#[trigger] model.push(doc)[d], t) == positions_of(model[d], t),
        in_vocabulary(model.push(doc), t) <==> in_vocabulary(model, t) || doc.contains(t),
{
    let m = model.push(doc);
    assert(m.drop_last() =~= model);
    assert(m.last() == doc);
    if in_vocabulary(m, t) {
        let d = choose|d: int| 0 <= d < m.len() && #[trigger] m[d].contains(t);
        if d < model.len() {
            assert(model[d] == m[d]);
        }
    }
    if in_vocabulary(model, t) {
        let d = choose|d: int| 0 <= d < model.len() && #[trigger] model[d].contains(t);
        assert(m[d] == model[d]);
    }
    if doc.contains(t) {
        assert(m[model.len() as int] == doc);
    }
}

/// A document contains a term exactly when the term occurs in it at least
/// once: `contains_term` answers true exactly when `term_frequency` is not
/// zero.
pub proof fn lemma_contains_iff_frequency(model: Seq<Seq<Seq<char>>>, doc_id: nat, term: Seq<char>)
    ensures
        (match single_term(term) {
            Some(t) => doc_id < model.len() && model[doc_id as int].contains(t),
            None => false,
        }) <==> (match single_term(term) {
            Some(t) => if doc_id < model.len() {
                positions_of(model[doc_id as int], t).len()
            } else {
                0
            },
            None => 0,
        }) > 0,
{
    match single_term(term) {
        Some(t) => {
            if doc_id < model.len() {
                lemma_positions_of(model[doc_id as int], t);
            }
        },
        None => {},
    }
}

/// The vocabulary lists each term once: its length is the size of the
/// vocabulary, so `vocabulary().len()` is `vocabulary_size()`.
pub proof fn lemma_vocabulary_length(model: Seq<Seq<Seq<char>>>)
    ensures
        sorted_vocabulary(model).len() == vocabulary_set(model).len(),
        vocabulary_set(model).finite(),
{
    lemma_sorted_vocabulary(model);
    lemma_term_lt_strict_total_order();
    let s = sorted_vocabulary(model);
    assert(s.no_duplicates()) by {
        assert forall|i: int, j: int| 0 <= i < s.len() && 0 <= j < s.len() && i != j implies s[i] != s[j] by {
            if i < j {
                assert(crate::order::term_lt(s[i], s[j]));
            } else {
                assert(crate::order::term_lt(s[j], s[i]));
            }
        }
    }
    s.unique_seq_to_set();
    assert(s.to_set() =~= vocabulary_set(model)) by {
        assert forall|t: Seq<char>| #[trigger] s.to_set().contains(t) <==> vocabulary_set(model).contains(t) by {
            assert(s.contains(t) <==> in_vocabulary(model, t));
        }
    }
}

/// Every window of a phrase has a slop of at least zero.
proof fn lemma_window_slop_nonnegative(doc: Seq<Seq<char>>, ts: Seq<Seq<char>>, js: Seq<int>)
    requires
        is_phrase_window(doc, ts, js),
    ensures
        window_slop(js) >= 0,
{
    lemma_window_gaps(js, js.len() - 1);
}

proof fn lemma_window_gaps(js: Seq<int>, i: int)
    requires
        0 <= i < js.len(),
        forall|k: int| 0 <= k < js.len() - 1 ==> #[trigger] js[k] < js[k + 1],
    ensures
        js[i] - js[0] >= i,
    decreases i,
{
    if i > 0 {
        lemma_window_gaps(js, i - 1);
        assert(js[i - 1] < js[i]);
    }
}

/// When a window of slop at most `max` exists, a least such slop exists.
proof fn lemma_least_slop_exists(doc: Seq<Seq<char>>, ts: Seq<Seq<char>>, max: nat)
    requires
        exists|js: Seq<int>| #[trigger] is_phrase_window(doc, ts, js) && window_slop(js) <= max,
    ensures
        exists|s: nat| is_least_slop(doc, ts, max, s),
    decreases max,
{
    if max > 0 && exists|js: Seq<int>| #[trigger] is_phrase_window(doc, ts, js) && window_slop(js) <= max - 1 {
        let m = (max - 1) as nat;
        lemma_least_slop_exists(doc, ts, m);
        let s = choose|s: nat| is_least_slop(doc, ts, m, s);
        assert(is_least_slop(doc, ts, max, s));
    } else {
        let js = choose|js: Seq<int>| #[trigger] is_phrase_window(doc, ts, js) && window_slop(js) <= max;
        lemma_window_slop_nonnegative(doc, ts, js);
        assert forall|ks: Seq<int>| #[trigger] is_phrase_window(doc, ts, ks) && window_slop(ks) <= max implies max
            <= window_slop(ks) by {
            lemma_window_slop_nonnegative(doc, ts, ks);
        }
        assert(window_slop(js) == max);
        assert(is_least_slop(doc, ts, max, max));
    }
}

/// The least slop of a phrase, when it has one.
proof fn lemma_phrase_slop_is_least(doc: Seq<Seq<char>>, ts: Seq<Seq<char>>, max: nat)
    ensures
        phrase_slop(doc, ts, max) matches Some(s) ==> is_least_slop(doc, ts, max, s),
{
    if exists|js: Seq<int>| #[trigger] is_phrase_window(doc, ts, js) && window_slop(js) <= max {
        lemma_least_slop_exists(doc, ts, max);
    }
}

/// A phrase found within a slop is found within every larger slop, with the
/// same least slop: raising `~n` never loses a match nor changes its score.
pub proof fn lemma_phrase_slop_monotonic(doc: Seq<Seq<char>>, ts: Seq<Seq<char>>, max: nat, larger: nat)
    requires
        max <= larger,
        phrase_slop(doc, ts, max) is Some,
    ensures
        phrase_slop(doc, ts, larger) == phrase_slop(doc, ts, max),
{
    lemma_phrase_slop_is_least(doc, ts, max);
    let s = phrase_slop(doc, ts, max)->0;
    assert(is_least_slop(doc, ts, max, s));
    let js = choose|js: Seq<int>| #[trigger] is_phrase_window(doc, ts, js) && window_slop(js) == s && s <= max;
    assert(is_phrase_window(doc, ts, js) && window_slop(js) <= larger);
    lemma_phrase_slop_is_least(doc, ts, larger);
    let s2 = phrase_slop(doc, ts, larger)->0;
    assert(is_least_slop(doc, ts, larger, s2));
    let js2 = choose|js2: Seq<int>| #[trigger] is_phrase_window(doc, ts, js2) && window_slop(js2) == s2 && s2 <= larger;
    assert(s2 <= window_slop(js));
    assert(s <= window_slop(js2));
}

/// A phrase of one term is found exactly in the documents that contain the
/// term, always with slop zero.
pub proof fn lemma_single_term_phrase(doc: Seq<Seq<char>>, t: Seq<char>, max: nat)
    ensures
        phrase_slop(doc, seq![t], max) == if doc.contains(t) {
            Some(0nat)
        } else {
            None
        },
{
    let ts = seq![t];
    if doc.contains(t) {
        let j = choose|j: int| 0 <= j < doc.len() && doc[j] == t;
        let js = seq![j];
        assert(is_phrase_window(doc, ts, js));
        assert(window_slop(js) == 0);
        lemma_phrase_slop_is_least(doc, ts, max);
        let s = phrase_slop(doc, ts, max)->0;
        assert(s <= window_slop(js));
    } else {
        assert forall|js: Seq<int>| #[trigger] is_phrase_window(doc, ts, js) implies false by {
            assert(doc[js[0]] == t);
        }
    }
}

/// The statistic at index `i` of a top list is the best of the statistics
/// of the vocabulary that the list does not hold before `i`.
proof fn lemma_top_element(r: Seq<TermStatView>, model: Seq<Seq<Seq<char>>>, limit: nat, i: int, t: Seq<char>)
    requires
        is_top_terms(r, model, limit),
        0 <= i < r.len(),
        in_vocabulary(model, t),
        !holds_term_of(r.take(i), stat_of(model, t)),
    ensures
        stat_of(model, t) == r[i] || ranks_before(r[i], stat_of(model, t)),
{
    let x = stat_of(model, t);
    if holds_term_of(r, x) {
        let a = choose|a: int| 0 <= a < r.len() && #[trigger] r[a].term == x.term;
        assert(r[a] == stat_of(model, r[a].term));
        if a < i {
            assert(r.take(i)[a].term == x.term);
        } else if a > i {
            assert(ranks_before(r[i], r[a]));
        }
    }
}

/// A statistic of a top list is not held by the list before it.
proof fn lemma_top_fresh(r: Seq<TermStatView>, model: Seq<Seq<Seq<char>>>, limit: nat, i: int)
    requires
        is_top_terms(r, model, limit),
        0 <= i < r.len(),
    ensures
        !holds_term_of(r.take(i), r[i]),
{
    lemma_ranks_before_strict_total_order();
    if holds_term_of(r.take(i), r[i]) {
        let a = choose|a: int| 0 <= a < r.take(i).len() && #[trigger] r.take(i)[a].term == r[i].term;
        assert(r[a].term == r[i].term);
        assert(r[a] == stat_of(model, r[a].term));
        assert(r[i] == stat_of(model, r[i].term));
        assert(ranks_before(r[a], r[i]));
    }
}

/// The most frequent terms for a smaller limit are the first ones for a
/// larger limit: `top_terms(k)` is a prefix of `top_terms(n)` when `k <= n`,
/// and for one limit there is one answer.
pub proof fn lemma_top_terms_prefix(
    a: Seq<TermStatView>,
    b: Seq<TermStatView>,
    model: Seq<Seq<Seq<char>>>,
    k: nat,
    n: nat,
)
    requires
        is_top_terms(a, model, k),
        is_top_terms(b, model, n),
        k <= n,
    ensures
        a.len() <= b.len(),
        a == b.take(a.len() as int),
{
    lemma_top_prefix_upto(a, b, model, k, n, a.len() as int);
    assert(a.take(a.len() as int) =~= a);
}

proof fn lemma_top_prefix_upto(
    a: Seq<TermStatView>,
    b: Seq<TermStatView>,
    model: Seq<Seq<Seq<char>>>,
    k: nat,
    n: nat,
    i: int,
)
    requires
        is_top_terms(a, model, k),
        is_top_terms(b, model, n),
        k <= n,
        0 <= i <= a.len(),
    ensures
        a.len() <= b.len(),
        a.take(i) == b.take(i),
    decreases i,
{
    lemma_ranks_before_strict_total_order();
    if i > 0 {
        lemma_top_prefix_upto(a, b, model, k, n, i - 1);
        let j = i - 1;
        assert(a[j] == stat_of(model, a[j].term) && in_vocabulary(model, a[j].term));
        assert(b[j] == stat_of(model, b[j].term) && in_vocabulary(model, b[j].term));
        lemma_top_fresh(a, model, k, j);
        lemma_top_fresh(b, model, n, j);
        assert(!holds_term_of(b.take(j), stat_of(model, a[j].term)));
        assert(!holds_term_of(a.take(j), stat_of(model, b[j].term)));
        lemma_top_element(b, model, n, j, a[j].term);
        lemma_top_element(a, model, k, j, b[j].term);
        assert(a[j] == b[j]);
        assert(a.take(i) =~= a.take(j).push(a[j]));
        assert(b.take(i) =~= b.take(j).push(b[j]));
    }
}

/// The documents returned for a query are exactly those that match it, by
/// increasing id; each has every required term and phrase, no excluded term
/// or phrase, and a path that the prefix filter lets through.
pub proof fn lemma_matches_respect_filters(
    model: Seq<Seq<Seq<char>>>,
    docs: Seq<DocumentView>,
    q: ParsedQueryView,
    prefix: Option<Seq<char>>,
    n: nat,
)
    ensures
        forall|k: int, m: int|
            #![trigger matching_docs(model, docs, q, prefix, n as int)[k], matching_docs(model, docs, q, prefix, n as int)[m]]
            0 <= k < m < matching_docs(model, docs, q, prefix, n as int).len() ==> matching_docs(model, docs, q, prefix, n as int)[k]
                < matching_docs(model, docs, q, prefix, n as int)[m],
        forall|d: int|
            0 <= d < n ==> (#[trigger] matching_docs(model, docs, q, prefix, n as int).contains(d) <==> document_matches(
                model,
                docs,
                d,
                q,
                prefix,
            )),
        forall|k: int|
            0 <= k < matching_docs(model, docs, q, prefix, n as int).len() ==> {
                let d = #[trigger] matching_docs(model, docs, q, prefix, n as int)[k];
                &&& 0 <= d < n
                &&& forall|i: int| 0 <= i < q.required_terms.len() ==> model[d].contains(#[trigger] q.required_terms[i])
                &&& forall|i: int| 0 <= i < q.excluded_terms.len() ==> !model[d].contains(#[trigger] q.excluded_terms[i])
                &&& forall|i: int| 0 <= i < q.required_phrases.len() ==> phrase_found(model[d], #[trigger] q.required_phrases[i])
                &&& forall|i: int| 0 <= i < q.excluded_phrases.len() ==> !phrase_found(model[d], #[trigger] q.excluded_phrases[i])
                &&& path_allowed(docs[d].path, prefix)
            },
    decreases n,
{
    if n > 0 {
        let m = (n - 1) as nat;
        lemma_matches_respect_filters(model, docs, q, prefix, m);
        let prev = matching_docs(model, docs, q, prefix, m as int);
        let cur = matching_docs(model, docs, q, prefix, n as int);
        assert forall|d: int| 0 <= d < n implies (#[trigger] cur.contains(d) <==> document_matches(model, docs, d, q, prefix)) by {
            if d < m {
                if prev.contains(d) {
                    let k = choose|k: int| 0 <= k < prev.len() && prev[k] == d;
                    assert(cur[k] == d);
                }
                if cur.contains(d) {
                    let k = choose|k: int| 0 <= k < cur.len() && cur[k] == d;
                    if k < prev.len() {
                        assert(prev[k] == d);
                    } else {
                        assert(cur[k] == m);
                    }
                }
            } else {
                if document_matches(model, docs, d, q, prefix) {
                    assert(cur[cur.len() - 1] == d);
                }
                if cur.contains(d) {
                    let k = choose|k: int| 0 <= k < cur.len() && cur[k] == d;
                    if k < prev.len() {
                        assert(prev[k] < m);
                    }
                }
            }
        }
    }
}

/// `tokenize` gives the terms of the tokens of `tokenize_with_positions`, in
/// the same order.
pub proof fn lemma_tokenize_terms(s: Seq<char>)
    ensures
        token_terms(s).len() == token_spans(s).len(),
        forall|k: int| 0 <= k < token_spans(s).len() ==> #[trigger] token_terms(s)[k] == token_at(s, k).term,
{
}

/// Text made of ASCII chars only.
pub open spec fn is_ascii_text(s: Seq<char>) -> bool {
    forall|i: int| 0 <= i < s.len() ==> (#[trigger] s[i] as u32) < 128
}

/// A term as the tokenizer makes it from ASCII text: one or more lowercase
/// ASCII letters and digits.
pub open spec fn is_ascii_term(w: Seq<char>) -> bool {
    &&& w.len() > 0
    &&& forall|i: int| 0 <= i < w.len() ==> ('a' <= #[trigger] w[i] <= 'z') || ('0' <= w[i] <= '9')
}

/// Appending a run of word chars after a non-word char (or at the start)
/// adds one span.
proof fn lemma_spans_append_word(s: Seq<char>, w: Seq<char>)
    requires
        s.len() == 0 || !is_word_char(s.last()),
        w.len() > 0,
        forall|i: int| 0 <= i < w.len() ==> is_word_char(#[trigger] w[i]),
    ensures
        token_spans(s + w) == token_spans(s).push((s.len() as int, (s.len() + w.len()) as int)),
    decreases w.len(),
{
    let x = s + w;
    assert(x.drop_last() =~= s + w.drop_last());
    assert(x.last() == w.last());
    if w.len() == 1 {
        assert(s + w.drop_last() =~= s);
        if s.len() > 0 {
            assert(x[x.len() - 2] == s.last());
        }
    } else {
        let w2 = w.drop_last();
        assert forall|i: int| 0 <= i < w2.len() implies is_word_char(#[trigger] w2[i]) by {
            assert(w2[i] == w[i]);
        }
        lemma_spans_append_word(s, w2);
        assert(x[x.len() - 2] == w[w.len() - 2]);
        assert(token_spans(x) =~= token_spans(s).push((s.len() as int, (s.len() + w.len()) as int)));
    }
}

/// Appending a non-word char adds no span.
proof fn lemma_spans_append_separator(s: Seq<char>, c: char)
    requires
        !is_word_char(c),
    ensures
        token_spans(s.push(c)) == token_spans(s),
{
    assert(s.push(c).drop_last() =~= s);
    assert(s.push(c).last() == c);
}

/// Lowercasing an ASCII term leaves it as it is.
proof fn lemma_lowercase_ascii_term(w: Seq<char>)
    requires
        forall|i: int| 0 <= i < w.len() ==> ('a' <= #[trigger] w[i] <= 'z') || ('0' <= w[i] <= '9'),
    ensures
        lowercase_all(w) == w,
    decreases w.len(),
{
    if w.len() > 0 {
        let w2 = w.drop_last();
        assert forall|i: int| 0 <= i < w2.len() implies ('a' <= #[trigger] w2[i] <= 'z') || ('0' <= w2[i] <= '9') by {
            assert(w2[i] == w[i]);
        }
        lemma_lowercase_ascii_term(w2);
        let c = w.last();
        assert(('a' <= c <= 'z') || ('0' <= c <= '9'));
        assert(ascii_lower_char(c) == c);
        assert(w =~= w2.push(c));
        assert(lowercase_all(w) =~= w2 + seq![c]);
    }
}

/// Lowercasing ASCII letters and digits gives an ASCII term.
proof fn lemma_lowercase_ascii_word(w: Seq<char>)
    requires
        forall|i: int| 0 <= i < w.len() ==> ascii_alphanumeric(#[trigger] w[i]),
    ensures
        lowercase_all(w).len() == w.len(),
        forall|i: int| 0 <= i < w.len() ==> ('a' <= #[trigger] lowercase_all(w)[i] <= 'z') || ('0' <= lowercase_all(w)[i] <= '9'),
    decreases w.len(),
{
    if w.len() > 0 {
        let w2 = w.drop_last();
        assert forall|i: int| 0 <= i < w2.len() implies ascii_alphanumeric(#[trigger] w2[i]) by {
            assert(w2[i] == w[i]);
        }
        lemma_lowercase_ascii_word(w2);
        let c = w.last();
        assert(ascii_alphanumeric(c));
        let l = lowercase_all(w);
        assert(l == lowercase_all(w2) + seq![ascii_lower_char(c)]);
        assert forall|i: int| 0 <= i < w.len() implies ('a' <= #[trigger] l[i] <= 'z') || ('0' <= l[i] <= '9') by {
            if i < w2.len() {
                assert(l[i] == lowercase_all(w2)[i]);
            } else {
                assert(l[i] == ascii_lower_char(c));
            }
        }
    }
}

/// The tokens of ASCII text are ASCII terms.
pub proof fn lemma_ascii_tokens_are_terms(s: Seq<char>)
    requires
        is_ascii_text(s),
    ensures
        forall|k: int| 0 <= k < token_terms(s).len() ==> is_ascii_term(#[trigger] token_terms(s)[k]),
{
    lemma_token_spans_are_maximal_runs(s);
    let sp = token_spans(s);
    assert forall|k: int| 0 <= k < token_terms(s).len() implies is_ascii_term(#[trigger] token_terms(s)[k]) by {
        let w = s.subrange(sp[k].0, sp[k].1);
        assert(0 <= sp[k].0 < sp[k].1 <= s.len());
        assert forall|i: int| 0 <= i < w.len() implies ascii_alphanumeric(#[trigger] w[i]) by {
            assert(w[i] == s[sp[k].0 + i]);
            assert(is_word_char(s[sp[k].0 + i]));
            assert((s[sp[k].0 + i] as u32) < 128);
        }
        lemma_lowercase_ascii_word(w);
        assert(token_terms(s)[k] == lowercase_all(w));
    }
}

/// An ASCII term is one token, itself.
pub proof fn lemma_ascii_term_is_one_token(w: Seq<char>)
    requires
        is_ascii_term(w),
    ensures
        token_terms(w) == seq![w],
{
    assert forall|i: int| 0 <= i < w.len() implies is_word_char(#[trigger] w[i]) by {
        assert((w[i] as u32) < 128);
    }
    lemma_spans_append_word(Seq::empty(), w);
    assert(Seq::<char>::empty() + w =~= w);
    assert(token_spans(Seq::<char>::empty()) =~= Seq::<(int, int)>::empty());
    lemma_lowercase_ascii_term(w);
    assert(w.subrange(0, w.len() as int) =~= w);
    assert(token_terms(w) =~= seq![w]);
}

/// ASCII terms joined by spaces tokenize back into the same terms.
pub proof fn lemma_tokenize_joined_terms(ts: Seq<Seq<char>>)
    requires
        forall|k: int| 0 <= k < ts.len() ==> is_ascii_term(#[trigger] ts[k]),
    ensures
        token_terms(join_with_text(ts, seq![' '])) == ts,
    decreases ts.len(),
{
    if ts.len() == 0 {
        assert(token_terms(Seq::<char>::empty()) =~= ts);
    } else if ts.len() == 1 {
        lemma_ascii_term_is_one_token(ts[0]);
        assert(ts =~= seq![ts[0]]);
    } else {
        let init = ts.drop_last();
        let w = ts.last();
        assert forall|k: int| 0 <= k < init.len() implies is_ascii_term(#[trigger] init[k]) by {
            assert(init[k] == ts[k]);
        }
        lemma_tokenize_joined_terms(init);
        let j = join_with_text(init, seq![' ']);
        let js = j.push(' ');
        let x = join_with_text(ts, seq![' ']);
        assert(x == j + seq![' '] + w);
        assert(j + seq![' '] == js);
        assert(!is_word_char(' '));
        lemma_spans_append_separator(j, ' ');
        assert forall|i: int| 0 <= i < w.len() implies is_word_char(#[trigger] w[i]) by {
            assert((w[i] as u32) < 128);
        }
        assert(js.last() == ' ');
        lemma_spans_append_word(js, w);
        let sp = token_spans(x);
        let spj = token_spans(j);
        assert(sp == spj.push((js.len() as int, (js.len() + w.len()) as int)));
        lemma_token_spans_are_maximal_runs(j);
        lemma_lowercase_ascii_term(w);
        assert forall|k: int| 0 <= k < ts.len() implies #[trigger] token_terms(x)[k] == ts[k] by {
            if k < init.len() {
                assert(sp[k] == spj[k]);
                assert(0 <= spj[k].0 < spj[k].1 <= j.len());
                assert(x.subrange(spj[k].0, spj[k].1) =~= j.subrange(spj[k].0, spj[k].1));
                assert(token_terms(j)[k] == init[k]);
            } else {
                assert(x.subrange(js.len() as int, (js.len() + w.len()) as int) =~= w);
            }
        }
        assert(token_terms(x) =~= ts);
    }
}

/// Tokenizing the tokens of ASCII text, joined by spaces, gives the same
/// tokens: `tokenize(&tokenize(text).join(" ")) == tokenize(text)`.
pub proof fn lemma_tokenize_is_idempotent(s: Seq<char>)
    requires
        is_ascii_text(s),
    ensures
        token_terms(join_with_text(token_terms(s), seq![' '])) == token_terms(s),
{
    lemma_ascii_tokens_are_terms(s);
    lemma_tokenize_joined_terms(token_terms(s));
}

/// A term that tokenizes as one token, itself, and is made of lowercase
/// ASCII letters and digits.
pub open spec fn is_token_term(w: Seq<char>) -> bool {
    is_ascii_term(w) && token_terms(w) == seq![w]
}

/// Every term of `ts` is a token term.
pub open spec fn all_token_terms(ts: Seq<Seq<char>>) -> bool {
    forall|k: int| 0 <= k < ts.len() ==> is_token_term(#[trigger] ts[k])
}

/// A phrase with at least one term, each a token term.
pub open spec fn phrase_of_tokens(p: PhraseView) -> bool {
    p.terms.len() > 0 && all_token_terms(p.terms)
}

/// Every term, fuzzy term and phrase term of a parsed query is a token
/// term, and every phrase has terms.
pub open spec fn query_terms_are_tokens(q: ParsedQueryView) -> bool {
    &&& all_token_terms(q.optional_terms)
    &&& all_token_terms(q.required_terms)
    &&& all_token_terms(q.excluded_terms)
    &&& forall|i: int| 0 <= i < q.optional_fuzzy_terms.len() ==> is_token_term(#[trigger] q.optional_fuzzy_terms[i].term)
    &&& forall|i: int| 0 <= i < q.required_fuzzy_terms.len() ==> is_token_term(#[trigger] q.required_fuzzy_terms[i].term)
    &&& forall|i: int| 0 <= i < q.excluded_fuzzy_terms.len() ==> is_token_term(#[trigger] q.excluded_fuzzy_terms[i].term)
    &&& forall|i: int| 0 <= i < q.phrases.len() ==> phrase_of_tokens(#[trigger] q.phrases[i])
    &&& forall|i: int| 0 <= i < q.required_phrases.len() ==> phrase_of_tokens(#[trigger] q.required_phrases[i])
    &&& forall|i: int| 0 <= i < q.excluded_phrases.len() ==> phrase_of_tokens(#[trigger] q.excluded_phrases[i])
}

/// The text of a query item.
pub open spec fn item_text(item: QueryItem) -> Seq<char> {
    match item {
        QueryItem::Phrase { text, .. } => text,
        QueryItem::Word { text, .. } => text,
    }
}

proof fn lemma_ascii_subrange(s: Seq<char>, a: int, b: int)
    requires
        is_ascii_text(s),
        0 <= a <= b <= s.len(),
    ensures
        is_ascii_text(s.subrange(a, b)),
{
    assert forall|i: int| 0 <= i < s.subrange(a, b).len() implies (#[trigger] s.subrange(a, b)[i] as u32) < 128 by {
        assert(s.subrange(a, b)[i] == s[a + i]);
    }
}

proof fn lemma_ascii_token_terms(s: Seq<char>)
    requires
        is_ascii_text(s),
    ensures
        all_token_terms(token_terms(s)),
{
    lemma_ascii_tokens_are_terms(s);
    assert forall|k: int| 0 <= k < token_terms(s).len() implies is_token_term(#[trigger] token_terms(s)[k]) by {
        lemma_ascii_term_is_one_token(token_terms(s)[k]);
    }
}

proof fn lemma_item_text_ascii(s: Seq<char>, j: int)
    requires
        is_ascii_text(s),
        0 <= j < s.len(),
    ensures
        is_ascii_text(item_text(item_at(s, j).0)),
{
    let (sign, k) = sign_at(s, j);
    assert(j <= k <= s.len());
    if 0 <= k < s.len() && s[k] == '"' {
        lemma_scan_to_char_bounds(s, k + 1, '"');
        let e = scan_to_char(s, k + 1, '"');
        lemma_ascii_subrange(s, k + 1, e);
    } else {
        lemma_scan_to_whitespace_bounds(s, k);
        lemma_ascii_subrange(s, k, crate::query::scan_to_whitespace(s, k));
    }
}

proof fn lemma_query_items_ascii(s: Seq<char>, i: int)
    requires
        is_ascii_text(s),
    ensures
        forall|m: int| 0 <= m < query_items_from(s, i).len() ==> is_ascii_text(item_text(#[trigger] query_items_from(s, i)[m])),
    decreases s.len() - i,
{
    let j = skip_whitespace(s, i);
    if !(i < 0 || i > s.len() || j >= s.len()) {
        lemma_skip_whitespace_bounds(s, i);
        lemma_item_at_advances(s, j);
        lemma_query_items_ascii(s, item_at(s, j).1);
        lemma_item_text_ascii(s, j);
        let rest = query_items_from(s, item_at(s, j).1);
        assert forall|m: int| 0 <= m < query_items_from(s, i).len() implies is_ascii_text(item_text(#[trigger] query_items_from(s, i)[m])) by {
            if m > 0 {
                assert(query_items_from(s, i)[m] == rest[m - 1]);
            }
        }
    }
}

proof fn lemma_all_token_terms_concat(a: Seq<Seq<char>>, b: Seq<Seq<char>>)
    requires
        all_token_terms(a),
        all_token_terms(b),
    ensures
        all_token_terms(a + b),
{
    assert forall|k: int| 0 <= k < (a + b).len() implies is_token_term(#[trigger] (a + b)[k]) by {
        if k < a.len() {
            assert((a + b)[k] == a[k]);
        } else {
            assert((a + b)[k] == b[k - a.len()]);
        }
    }
}

proof fn lemma_apply_item_keeps_tokens(q: ParsedQueryView, item: QueryItem)
    requires
        query_terms_are_tokens(q),
        is_ascii_text(item_text(item)),
    ensures
        query_terms_are_tokens(apply_item(q, item)),
{
    match item {
        QueryItem::Phrase { sign, text, slop } => {
            lemma_ascii_token_terms(text);
            let r = apply_item(q, item);
            assert forall|i: int| 0 <= i < r.phrases.len() implies phrase_of_tokens(#[trigger] r.phrases[i]) by {
                if i < q.phrases.len() {
                    assert(r.phrases[i] == q.phrases[i]);
                }
            }
            assert forall|i: int| 0 <= i < r.required_phrases.len() implies phrase_of_tokens(#[trigger] r.required_phrases[i]) by {
                if i < q.required_phrases.len() {
                    assert(r.required_phrases[i] == q.required_phrases[i]);
                }
            }
            assert forall|i: int| 0 <= i < r.excluded_phrases.len() implies phrase_of_tokens(#[trigger] r.excluded_phrases[i]) by {
                if i < q.excluded_phrases.len() {
                    assert(r.excluded_phrases[i] == q.excluded_phrases[i]);
                }
            }
        },
        QueryItem::Word { sign, text } => {
            match metadata_filter_of(text) {
                Some(f) => {},
                None => match fuzzy_term_of(text) {
                    Some(z) => {
                        text.index_of_last_ensures('~');
                        let c = text.index_of_last('~')->0;
                        assert(0 <= c < text.len());
                        lemma_ascii_subrange(text, 0, c);
                        assert(text.subrange(0, c) =~= text.take(c));
                        lemma_ascii_token_terms(text.take(c));
                        assert(z.term == token_terms(text.take(c))[0]);
                        let r = apply_item(q, item);
                        assert forall|i: int| 0 <= i < r.optional_fuzzy_terms.len() implies is_token_term(#[trigger] r.optional_fuzzy_terms[i].term) by {
                            if i < q.optional_fuzzy_terms.len() {
                                assert(r.optional_fuzzy_terms[i] == q.optional_fuzzy_terms[i]);
                            }
                        }
                        assert forall|i: int| 0 <= i < r.required_fuzzy_terms.len() implies is_token_term(#[trigger] r.required_fuzzy_terms[i].term) by {
                            if i < q.required_fuzzy_terms.len() {
                                assert(r.required_fuzzy_terms[i] == q.required_fuzzy_terms[i]);
                            }
                        }
                        assert forall|i: int| 0 <= i < r.excluded_fuzzy_terms.len() implies is_token_term(#[trigger] r.excluded_fuzzy_terms[i].term) by {
                            if i < q.excluded_fuzzy_terms.len() {
                                assert(r.excluded_fuzzy_terms[i] == q.excluded_fuzzy_terms[i]);
                            }
                        }
                    },
                    None => {
                        lemma_ascii_token_terms(text);
                        lemma_all_token_terms_concat(q.optional_terms, token_terms(text));
                        lemma_all_token_terms_concat(q.required_terms, token_terms(text));
                        lemma_all_token_terms_concat(q.excluded_terms, token_terms(text));
                    },
                },
            }
        },
    }
}

proof fn lemma_apply_items_keeps_tokens(items: Seq<QueryItem>)
    requires
        forall|m: int| 0 <= m < items.len() ==> is_ascii_text(item_text(#[trigger] items[m])),
    ensures
        query_terms_are_tokens(apply_items(items)),
    decreases items.len(),
{
    if items.len() > 0 {
        let init = items.drop_last();
        assert forall|m: int| 0 <= m < init.len() implies is_ascii_text(item_text(#[trigger] init[m])) by {
            assert(init[m] == items[m]);
        }
        lemma_apply_items_keeps_tokens(init);
        lemma_apply_item_keeps_tokens(apply_items(init), items.last());
    }
}

/// Every term that parsing an ASCII query yields — optional, required and
/// excluded terms, fuzzy terms and phrase terms — is one token of lowercase
/// ASCII letters and digits that tokenizes as itself, and every phrase has
/// terms.
pub proof fn lemma_parsed_query_terms_are_tokens(s: Seq<char>)
    requires
        is_ascii_text(s),
    ensures
        query_terms_are_tokens(parse_query_spec(s)),
{
    lemma_query_items_ascii(s, 0);
    lemma_apply_items_keeps_tokens(query_items(s));
}

/// A query without optional or required terms and without plain or
/// required phrases returns no document, as a query of excluded items only.
pub proof fn lemma_no_scoring_items_match_nothing(
    model: Seq<Seq<Seq<char>>>,
    docs: Seq<DocumentView>,
    q: ParsedQueryView,
    prefix: Option<Seq<char>>,
    n: nat,
)
    requires
        q.optional_terms.len() == 0,
        q.required_terms.len() == 0,
        q.phrases.len() == 0,
        q.required_phrases.len() == 0,
    ensures
        matching_docs(model, docs, q, prefix, n as int).len() == 0,
    decreases n,
{
    if n > 0 {
        lemma_no_scoring_items_match_nothing(model, docs, q, prefix, (n - 1) as nat);
        assert(crate::search::scoring_terms(q).len() == 0);
        assert(crate::search::scoring_phrases(q).len() == 0);
        assert(!document_matches(model, docs, n - 1, q, prefix));
    }
}

/// The most frequent terms come first, by how often they occur: each
/// returned statistic holds its term's counts over all documents; the list
/// runs from the most to the least occurrences, then from the most to the
/// fewest documents, then in string order; and a term of the vocabulary that
/// is left out occurs no more often than any returned term (when as often,
/// in no more documents; when in as many, it sorts after the returned term).
pub proof fn lemma_top_terms_by_frequency(r: Seq<TermStatView>, model: Seq<Seq<Seq<char>>>, limit: nat)
    requires
        is_top_terms(r, model, limit),
    ensures
        forall|a: int|
            0 <= a < r.len() ==> in_vocabulary(model, (#[trigger] r[a]).term) && r[a].total_frequency == total_occurrences(
                model,
                r[a].term,
            ) && r[a].document_frequency == docs_containing(model, r[a].term).len(),
        forall|a: int, b: int|
            0 <= a < b < r.len() ==> {
                ||| (#[trigger] r[a]).total_frequency > (#[trigger] r[b]).total_frequency
                ||| r[a].total_frequency == r[b].total_frequency && r[a].document_frequency > r[b].document_frequency
                ||| r[a].total_frequency == r[b].total_frequency && r[a].document_frequency == r[b].document_frequency
                    && term_lt(r[a].term, r[b].term)
            },
        forall|t: Seq<char>, a: int|
            #![trigger in_vocabulary(model, t), r[a]]
            in_vocabulary(model, t) && (forall|b: int| 0 <= b < r.len() ==> (#[trigger] r[b]).term != t) && 0 <= a < r.len()
                ==> {
                ||| r[a].total_frequency > total_occurrences(model, t)
                ||| r[a].total_frequency == total_occurrences(model, t) && r[a].document_frequency > docs_containing(
                    model,
                    t,
                ).len()
                ||| r[a].total_frequency == total_occurrences(model, t) && r[a].document_frequency == docs_containing(
                    model,
                    t,
                ).len() && term_lt(r[a].term, t)
            },
{
    assert forall|t: Seq<char>, a: int|
        #![trigger in_vocabulary(model, t), r[a]]
        in_vocabulary(model, t) && (forall|b: int| 0 <= b < r.len() ==> (#[trigger] r[b]).term != t) && 0 <= a < r.len()
            implies {
            ||| r[a].total_frequency > total_occurrences(model, t)
            ||| r[a].total_frequency == total_occurrences(model, t) && r[a].document_frequency > docs_containing(
                model,
                t,
            ).len()
            ||| r[a].total_frequency == total_occurrences(model, t) && r[a].document_frequency == docs_containing(
                model,
                t,
            ).len() && term_lt(r[a].term, t)
        } by {
        if holds_term_of(r, stat_of(model, t)) {
            let b = choose|b: int| 0 <= b < r.len() && #[trigger] r[b].term == stat_of(model, t).term;
            assert(r[b].term != t);
        }
        assert(ranks_before(r[a], stat_of(model, t)));
    }
}

/// The path prefix filter keeps exactly the documents whose path begins
/// with the prefix, char for char: with a prefix, a document is returned
/// exactly when it is returned without one and its path is at least as long
/// as the prefix and agrees with it on every char of the prefix.
pub proof fn lemma_prefix_filter_is_starts_with(
    model: Seq<Seq<Seq<char>>>,
    docs: Seq<DocumentView>,
    q: ParsedQueryView,
    p: Seq<char>,
    n: nat,
)
    ensures
        forall|d: int|
            0 <= d < n ==> (#[trigger] matching_docs(model, docs, q, Some(p), n as int).contains(d) <==> {
                &&& matching_docs(model, docs, q, None, n as int).contains(d)
                &&& p.len() <= docs[d].path.len()
                &&& forall|i: int| 0 <= i < p.len() ==> docs[d].path[i] == p[i]
            }),
        forall|k: int|
            0 <= k < matching_docs(model, docs, q, Some(p), n as int).len() ==> {
                let d = #[trigger] matching_docs(model, docs, q, Some(p), n as int)[k];
                &&& p.len() <= docs[d].path.len()
                &&& forall|i: int| 0 <= i < p.len() ==> docs[d].path[i] == p[i]
            },
{
    lemma_matches_respect_filters(model, docs, q, Some(p), n);
    lemma_matches_respect_filters(model, docs, q, None, n);
    assert forall|path: Seq<char>| #[trigger] path_allowed(path, Some(p)) <==> (p.len() <= path.len() && forall|i: int|
        0 <= i < p.len() ==> path[i] == p[i]) by {
        if path_allowed(path, Some(p)) {
            assert forall|i: int| 0 <= i < p.len() implies path[i] == p[i] by {
                assert(path.take(p.len() as int)[i] == path[i]);
            }
        }
        if p.len() <= path.len() && forall|i: int| 0 <= i < p.len() ==> path[i] == p[i] {
            assert(path.take(p.len() as int) =~= p);
        }
    }
    assert forall|k: int| 0 <= k < matching_docs(model, docs, q, Some(p), n as int).len() implies {
        let d = #[trigger] matching_docs(model, docs, q, Some(p), n as int)[k];
        &&& p.len() <= docs[d].path.len()
        &&& forall|i: int| 0 <= i < p.len() ==> docs[d].path[i] == p[i]
    } by {
        let d = matching_docs(model, docs, q, Some(p), n as int)[k];
        assert(path_allowed(docs[d].path, Some(p)));
    }
}

/// The first index at or after `i` that holds no ASCII digit ends the
/// digits: it is the end of the text or holds a char other than `'0'..='9'`.
proof fn lemma_scan_digits_stops(s: Seq<char>, i: int)
    requires
        0 <= i <= s.len(),
    ensures
        scan_digits(s, i) == s.len() || !('0' <= s[scan_digits(s, i)] <= '9'),
    decreases s.len() - i,
{
    if i < s.len() && '0' <= s[i] <= '9' {
        lemma_scan_digits_stops(s, i + 1);
    }
}

/// The slop written after a phrase: a `~` is followed by the whole run of
/// ASCII digits `'0'..='9'` that comes next, no digit is left after what is
/// read, and the slop is the decimal value of that run, capped at
/// `usize::MAX`. Without a `~` the slop is 0 and nothing is read.
pub proof fn lemma_slop_reads_whole_digit_run(s: Seq<char>, i: int)
    requires
        0 <= i <= s.len(),
    ensures
        (i < s.len() && s[i] == '~') ==> {
            let (v, e) = slop_at(s, i);
            &&& i + 1 <= e <= s.len()
            &&& forall|j: int| i + 1 <= j < e ==> '0' <= #[trigger] s[j] <= '9'
            &&& e == s.len() || !('0' <= s[e] <= '9')
            &&& v == saturate(decimal_value(s.subrange(i + 1, e)))
        },
        !(i < s.len() && s[i] == '~') ==> slop_at(s, i) == (0nat, i),
{
    if i < s.len() && s[i] == '~' {
        lemma_scan_digits_bounds(s, i + 1);
        lemma_scan_digits_stops(s, i + 1);
    }
}

/// A char of the text belongs to a token exactly when std's
/// `char::is_alphanumeric` accepts it: for an ASCII char, a letter or a
/// digit; beyond ASCII, std's own answer. Other chars, such as punctuation,
/// curly quotes or no-break spaces, never end up in a token.
pub proof fn lemma_token_chars_are_alphanumeric(s: Seq<char>)
    ensures
        forall|j: int|
            0 <= j < s.len() ==> ((exists|k: int|
                #![trigger token_spans(s)[k]]
                0 <= k < token_spans(s).len() && token_spans(s)[k].0 <= j < token_spans(s)[k].1) <==> if (#[trigger] s[j]
                as u32) < 128 {
                ('a' <= s[j] <= 'z') || ('A' <= s[j] <= 'Z') || ('0' <= s[j] <= '9')
            } else {
                char_alphanumeric(s[j])
            }),
{
    lemma_token_spans_are_maximal_runs(s);
    let sp = token_spans(s);
    assert forall|j: int| 0 <= j < s.len() implies ((exists|k: int|
        #![trigger sp[k]]
        0 <= k < sp.len() && sp[k].0 <= j < sp[k].1) <==> if (#[trigger] s[j] as u32) < 128 {
        ('a' <= s[j] <= 'z') || ('A' <= s[j] <= 'Z') || ('0' <= s[j] <= '9')
    } else {
        char_alphanumeric(s[j])
    }) by {
        if exists|k: int| #![trigger sp[k]] 0 <= k < sp.len() && sp[k].0 <= j < sp[k].1 {
            let k = choose|k: int| #![trigger sp[k]] 0 <= k < sp.len() && sp[k].0 <= j < sp[k].1;
            assert(is_word_char(s[j]));
        }
    }
}

/// The value of a run of digits, read from its first digit: the first
/// digit counts ten to the number of digits after it times its value
/// (`'0'` is 0, ..., `'9'` is 9), and no digits are worth 0.
pub proof fn lemma_decimal_value_leading_digit(c: char, d: Seq<char>)
    requires
        '0' <= c <= '9',
    ensures
        decimal_value(Seq::<char>::empty()) == 0,
        decimal_value(seq![c] + d) == (c as u32 - '0' as u32) * vstd::arithmetic::power::pow(10, d.len()) + decimal_value(d),
    decreases d.len(),
{
    let cv: int = c as u32 - '0' as u32;
    reveal(vstd::arithmetic::power::pow);
    if d.len() == 0 {
        assert(seq![c] + d =~= seq![c]);
        assert(seq![c].drop_last() =~= Seq::<char>::empty());
        assert(vstd::arithmetic::power::pow(10, 0) == 1);
    } else {
        let d1 = d.drop_last();
        lemma_decimal_value_leading_digit(c, d1);
        assert((seq![c] + d).drop_last() =~= seq![c] + d1);
        assert((seq![c] + d).last() == d.last());
        let p1 = vstd::arithmetic::power::pow(10, d1.len());
        assert(vstd::arithmetic::power::pow(10, d.len()) == 10 * p1);
        let v1 = decimal_value(d1);
        assert((cv * p1 + v1) * 10 == cv * (10 * p1) + v1 * 10) by (nonlinear_arith);
    }
}

} // verus!
