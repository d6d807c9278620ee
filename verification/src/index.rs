//! The search engine: documents and a positional inverted index over their
//! tokens.
//!
//! The index is specified against a model that keeps, for every document,
//! the sequence of its token terms. Every query the engine answers is stated
//! over that model.
use vstd::prelude::*;

use crate::document::{inferred_title, normalized_extension, path_extension, DocumentMeta, DocumentView};
use crate::query::strings_view;
use crate::order::{compare_terms, lemma_term_lt_strict_total_order, term_lt, TermOrder};
use crate::tokenizer::{lemma_token_spans_are_maximal_runs, token_spans, token_terms, tokenize};

verus! {

/// The indices of `terms` that hold `t`, in increasing order.
pub open spec fn positions_of(terms: Seq<Seq<char>>, t: Seq<char>) -> Seq<int>
    decreases terms.len(),
{
    if terms.len() == 0 {
        Seq::empty()
    } else {
        let prev = positions_of(terms.drop_last(), t);
        if terms.last() == t {
            prev.push(terms.len() - 1)
        } else {
            prev
        }
    }
}

/// The documents (indices of `model`) that contain `t`, in increasing order.
pub open spec fn docs_containing(model: Seq<Seq<Seq<char>>>, t: Seq<char>) -> Seq<int>
    decreases model.len(),
{
    if model.len() == 0 {
        Seq::empty()
    } else {
        let prev = docs_containing(model.drop_last(), t);
        if model.last().contains(t) {
            prev.push(model.len() - 1)
        } else {
            prev
        }
    }
}

/// How often `t` occurs in all the documents together.
pub open spec fn total_occurrences(model: Seq<Seq<Seq<char>>>, t: Seq<char>) -> nat
    decreases model.len(),
{
    if model.len() == 0 {
        0
    } else {
        total_occurrences(model.drop_last(), t) + positions_of(model.last(), t).len()
    }
}

/// The number of tokens in all the documents together.
pub open spec fn total_length(model: Seq<Seq<Seq<char>>>) -> nat
    decreases model.len(),
{
    if model.len() == 0 {
        0
    } else {
        total_length(model.drop_last()) + model.last().len()
    }
}

/// Whether some document contains `t`.
pub open spec fn in_vocabulary(model: Seq<Seq<Seq<char>>>, t: Seq<char>) -> bool {
    exists|d: int| 0 <= d < model.len() && #[trigger] model[d].contains(t)
}

/// Every term that occurs in some document.
pub open spec fn vocabulary_set(model: Seq<Seq<Seq<char>>>) -> Set<Seq<char>> {
    Set::new(|t: Seq<char>| in_vocabulary(model, t))
}

/// Strictly increasing integers.
pub open spec fn strictly_increasing(s: Seq<int>) -> bool {
    forall|i: int, j: int| 0 <= i < j < s.len() ==> s[i] < s[j]
}

pub proof fn lemma_positions_of(terms: Seq<Seq<char>>, t: Seq<char>)
    ensures
        strictly_increasing(positions_of(terms, t)),
        forall|i: int|
            0 <= i < positions_of(terms, t).len() ==> 0 <= #[trigger] positions_of(terms, t)[i]
                < terms.len() && terms[positions_of(terms, t)[i]] == t,
        forall|j: int|
            0 <= j < terms.len() && terms[j] == t ==> #[trigger] positions_of(terms, t).contains(j),
        positions_of(terms, t).len() > 0 <==> terms.contains(t),
        positions_of(terms, t).len() <= terms.len(),
    decreases terms.len(),
{
    if terms.len() > 0 {
        let prev_terms = terms.drop_last();
        lemma_positions_of(prev_terms, t);
        let p = positions_of(terms, t);
        let prev = positions_of(prev_terms, t);
        assert forall|i: int| 0 <= i < prev.len() implies prev[i] < terms.len() - 1 by {}
        assert forall|j: int| 0 <= j < terms.len() && terms[j] == t implies #[trigger] p.contains(j) by {
            if j < terms.len() - 1 {
                assert(prev_terms[j] == t);
                assert(prev.contains(j));
                let k = choose|k: int| 0 <= k < prev.len() && prev[k] == j;
                assert(p[k] == j);
            } else {
                assert(p[p.len() - 1] == j);
            }
        }
        if terms.contains(t) {
            let j = choose|j: int| 0 <= j < terms.len() && terms[j] == t;
            assert(p.contains(j));
        }
        if p.len() > 0 {
            assert(terms[p[0]] == t);
        }
    }
}

pub proof fn lemma_docs_containing(model: Seq<Seq<Seq<char>>>, t: Seq<char>)
    ensures
        strictly_increasing(docs_containing(model, t)),
        forall|i: int|
            0 <= i < docs_containing(model, t).len() ==> 0 <= #[trigger] docs_containing(model, t)[i]
                < model.len() && model[docs_containing(model, t)[i]].contains(t),
        forall|d: int|
            0 <= d < model.len() && model[d].contains(t) ==> #[trigger] docs_containing(
                model,
                t,
            ).contains(d),
        docs_containing(model, t).len() > 0 <==> in_vocabulary(model, t),
        docs_containing(model, t).len() <= model.len(),
    decreases model.len(),
{
    if model.len() > 0 {
        let prev_model = model.drop_last();
        lemma_docs_containing(prev_model, t);
        let p = docs_containing(model, t);
        let prev = docs_containing(prev_model, t);
        assert forall|i: int| 0 <= i < prev.len() implies prev[i] < model.len() - 1 by {}
        assert forall|d: int| 0 <= d < model.len() && model[d].contains(t) implies #[trigger] p.contains(d) by {
            if d < model.len() - 1 {
                assert(prev_model[d].contains(t));
                assert(prev.contains(d));
                let k = choose|k: int| 0 <= k < prev.len() && prev[k] == d;
                assert(p[k] == d);
            } else {
                assert(p[p.len() - 1] == d);
            }
        }
        if in_vocabulary(model, t) {
            let d = choose|d: int| 0 <= d < model.len() && #[trigger] model[d].contains(t);
            assert(p.contains(d));
        }
        if p.len() > 0 {
            assert(model[p[0]].contains(t));
        }
    }
}

/// A term occurs in the documents at most as often as there are tokens.
pub proof fn lemma_total_occurrences_bound(model: Seq<Seq<Seq<char>>>, t: Seq<char>)
    ensures
        total_occurrences(model, t) <= total_length(model),
    decreases model.len(),
{
    if model.len() > 0 {
        lemma_total_occurrences_bound(model.drop_last(), t);
        lemma_positions_of(model.last(), t);
    }
}

/// A positional posting for a term in one document.
#[derive(Debug, Clone)]
pub(crate) struct Posting {
    pub doc_id: usize,
    pub positions: Vec<usize>,
}

/// A term of the vocabulary with its postings, by increasing document id.
#[derive(Debug, Clone)]
pub(crate) struct TermEntry {
    pub term: String,
    pub postings: Vec<Posting>,
}

/// Positions as integers.
pub open spec fn usizes_view(s: Seq<usize>) -> Seq<int> {
    s.map_values(|x: usize| x as int)
}

pub(crate) open spec fn posting_docs(ps: Seq<Posting>) -> Seq<int> {
    ps.map_values(|p: Posting| p.doc_id as int)
}

/// An entry lists exactly the documents that contain its term, each with
/// exactly the positions where it occurs.
pub(crate) open spec fn entry_ok(e: TermEntry, model: Seq<Seq<Seq<char>>>) -> bool {
    &&& posting_docs(e.postings@) == docs_containing(model, e.term@)
    &&& docs_containing(model, e.term@).len() > 0
    &&& forall|j: int|
        0 <= j < e.postings@.len() ==> usizes_view(#[trigger] e.postings@[j].positions@)
            == positions_of(model[e.postings@[j].doc_id as int], e.term@)
}

pub(crate) open spec fn entries_sorted(entries: Seq<TermEntry>) -> bool {
    forall|i: int, j: int|
        0 <= i < j < entries.len() ==> term_lt(#[trigger] entries[i].term@, #[trigger] entries[j].term@)
}

/// Every token of every document has an entry.
pub(crate) open spec fn entries_cover(entries: Seq<TermEntry>, model: Seq<Seq<Seq<char>>>) -> bool {
    forall|d: int, k: int|
        #![trigger model[d][k]]
        0 <= d < model.len() && 0 <= k < model[d].len() ==> has_entry(entries, model[d][k])
}

/// Some entry is for `t`.
pub(crate) open spec fn has_entry(entries: Seq<TermEntry>, t: Seq<char>) -> bool {
    exists|i: int| 0 <= i < entries.len() && #[trigger] entries[i].term@ == t
}

/// The entries are the inverted index of the model.
pub(crate) open spec fn index_ok(entries: Seq<TermEntry>, model: Seq<Seq<Seq<char>>>) -> bool {
    &&& entries_sorted(entries)
    &&& forall|i: int| 0 <= i < entries.len() ==> entry_ok(#[trigger] entries[i], model)
    &&& entries_cover(entries, model)
}

/// How the index of a model changes when the last document gets one more
/// token `u`.
proof fn lemma_model_push_facts(model: Seq<Seq<Seq<char>>>, x: Seq<Seq<char>>, u: Seq<char>)
    ensures
        forall|t: Seq<char>|
            #[trigger] docs_containing(model.push(x), t) == if x.contains(t) {
                docs_containing(model, t).push(model.len() as int)
            } else {
                docs_containing(model, t)
            },
        forall|t: Seq<char>|
            #[trigger] docs_containing(model.push(x.push(u)), t) == if x.push(u).contains(t) {
                docs_containing(model, t).push(model.len() as int)
            } else {
                docs_containing(model, t)
            },
        forall|t: Seq<char>| t != u ==> (#[trigger] x.push(u).contains(t) <==> x.contains(t)),
        x.push(u).contains(u),
        forall|t: Seq<char>|
            #[trigger] positions_of(x.push(u), t) == if u == t {
                positions_of(x, t).push(x.len() as int)
            } else {
                positions_of(x, t)
            },
        forall|d: int| 0 <= d < model.len() ==> #[trigger] model.push(x.push(u))[d] == model.push(x)[d],
        model.push(x.push(u))[model.len() as int] == x.push(u),
        model.push(x)[model.len() as int] == x,
{
    assert(model.push(x).drop_last() =~= model);
    assert(model.push(x.push(u)).drop_last() =~= model);
    assert(x.push(u).drop_last() =~= x);
    assert forall|t: Seq<char>| t != u implies (#[trigger] x.push(u).contains(t) <==> x.contains(t)) by {
        if x.push(u).contains(t) {
            let k = choose|k: int| 0 <= k < x.push(u).len() && x.push(u)[k] == t;
            assert(x[k] == t);
        }
        if x.contains(t) {
            let k = choose|k: int| 0 <= k < x.len() && x[k] == t;
            assert(x.push(u)[k] == t);
        }
    }
    assert(x.push(u)[x.len() as int] == u);
}

/// Finds the entry of `term` by binary search: `Ok` with its index, or `Err`
/// with the index where it belongs.
fn find_entry(entries: &Vec<TermEntry>, term: &str) -> (r: Result<usize, usize>)
    requires
        entries_sorted(entries@),
    ensures
        match r {
            Ok(i) => i < entries@.len() && entries@[i as int].term@ == term@,
            Err(i) => {
                &&& i <= entries@.len()
                &&& forall|j: int| 0 <= j < i ==> term_lt(#[trigger] entries@[j].term@, term@)
                &&& forall|j: int| i <= j < entries@.len() ==> term_lt(term@, #[trigger] entries@[j].term@)
            },
        },
{
    proof {
        lemma_term_lt_strict_total_order();
    }
    let mut lo: usize = 0;
    let mut hi: usize = entries.len();
    while lo < hi
        invariant
            lo <= hi <= entries@.len(),
            entries_sorted(entries@),
            forall|j: int| 0 <= j < lo ==> term_lt(#[trigger] entries@[j].term@, term@),
            forall|j: int| hi <= j < entries@.len() ==> term_lt(term@, #[trigger] entries@[j].term@),
        decreases hi - lo,
    {
        let mid = lo + (hi - lo) / 2;
        let mid_term = entries[mid].term.as_str();
        assert(mid_term@ == entries@[mid as int].term@);
        proof {
            lemma_term_lt_strict_total_order();
        }
        match compare_terms(mid_term, term) {
            TermOrder::Before => {
                assert forall|j: int| 0 <= j < mid + 1 implies term_lt(#[trigger] entries@[j].term@, term@) by {
                    if j < mid {
                        assert(term_lt(entries@[j].term@, entries@[mid as int].term@));
                    }
                }
                lo = mid + 1;
            },
            TermOrder::Same => {
                return Ok(mid);
            },
            TermOrder::After => {
                assert forall|j: int| mid <= j < entries@.len() implies term_lt(term@, #[trigger] entries@[j].term@) by {
                    if j > mid {
                        assert(term_lt(entries@[mid as int].term@, entries@[j].term@));
                    }
                }
                hi = mid;
            },
        }
    }
    Err(lo)
}

/// Records that the document `doc_id`, whose tokens so far are `x`, has
/// `term` as its next token, at `position`.
fn record_occurrence(
    entries: &mut Vec<TermEntry>,
    term: &String,
    doc_id: usize,
    position: usize,
    Ghost(model): Ghost<Seq<Seq<Seq<char>>>>,
    Ghost(x): Ghost<Seq<Seq<char>>>,
)
    requires
        index_ok(old(entries)@, model.push(x)),
        doc_id == model.len(),
        position == x.len(),
    ensures
        index_ok(final(entries)@, model.push(x.push(term@))),
{
    let ghost u = term@;
    let ghost m1 = model.push(x);
    let ghost m2 = model.push(x.push(u));
    let ghost old_entries = entries@;
    proof {
        lemma_model_push_facts(model, x, u);
        lemma_term_lt_strict_total_order();
        lemma_docs_containing(model, u);
        lemma_positions_of(x, u);
    }
    match find_entry(entries, term.as_str()) {
        Ok(i) => {
            let ghost e = old_entries[i as int];
            assert(entry_ok(e, m1));
            let last = entries[i].postings.len() - 1;
            assert(posting_docs(e.postings@)[last as int] == e.postings@[last as int].doc_id);
            if entries[i].postings[last].doc_id == doc_id {
                proof {
                    assert(docs_containing(m1, u).last() == doc_id);
                    if !x.contains(u) {
                        assert(docs_containing(m1, u) == docs_containing(model, u));
                        assert(docs_containing(model, u).last() < model.len());
                    }
                    assert(x.contains(u));
                }
                entries[i].postings[last].positions.push(position);
                proof {
                    let e2 = entries@[i as int];
                    assert(posting_docs(e2.postings@) =~= posting_docs(e.postings@));
                    assert forall|j: int| 0 <= j < e2.postings@.len() implies usizes_view(
                        #[trigger] e2.postings@[j].positions@,
                    ) == positions_of(m2[e2.postings@[j].doc_id as int], e2.term@) by {
                        if j == last {
                            assert(usizes_view(e2.postings@[j].positions@) =~= usizes_view(
                                e.postings@[j].positions@,
                            ).push(position as int));
                        } else {
                            assert(e2.postings@[j] == e.postings@[j]);
                            assert(e.postings@[j].doc_id < doc_id) by {
                                lemma_docs_containing(m1, u);
                                assert(docs_containing(m1, u)[j] < docs_containing(m1, u)[last as int]);
                            }
                        }
                    }
                    assert(entry_ok(e2, m2));
                }
            } else {
                proof {
                    if x.contains(u) {
                        assert(docs_containing(m1, u).last() == doc_id);
                    }
                    assert(!x.contains(u));
                    assert(positions_of(x, u) =~= Seq::<int>::empty());
                }
                let mut positions: Vec<usize> = Vec::new();
                positions.push(position);
                entries[i].postings.push(Posting { doc_id, positions });
                proof {
                    let e2 = entries@[i as int];
                    assert(posting_docs(e2.postings@) =~= posting_docs(e.postings@).push(doc_id as int));
                    assert forall|j: int| 0 <= j < e2.postings@.len() implies usizes_view(
                        #[trigger] e2.postings@[j].positions@,
                    ) == positions_of(m2[e2.postings@[j].doc_id as int], e2.term@) by {
                        if j == e.postings@.len() {
                            assert(usizes_view(e2.postings@[j].positions@) =~= seq![position as int]);
                            assert(positions_of(x, u).push(x.len() as int) =~= seq![position as int]);
                        } else {
                            assert(e2.postings@[j] == e.postings@[j]);
                            lemma_docs_containing(m1, u);
                            assert(docs_containing(m1, u)[j] < model.len());
                        }
                    }
                    assert(entry_ok(e2, m2));
                }
            }
            proof {
                assert forall|k: int| 0 <= k < entries@.len() && k != i implies entry_ok(#[trigger] entries@[k], m2) by {
                    let ek = entries@[k];
                    assert(ek == old_entries[k]);
                    assert(entry_ok(ek, m1));
                    assert(ek.term@ != u);
                    assert forall|j: int| 0 <= j < ek.postings@.len() implies usizes_view(
                        #[trigger] ek.postings@[j].positions@,
                    ) == positions_of(m2[ek.postings@[j].doc_id as int], ek.term@) by {
                        lemma_docs_containing(m1, ek.term@);
                        assert(posting_docs(ek.postings@)[j] == ek.postings@[j].doc_id);
                        let d = ek.postings@[j].doc_id as int;
                        if d < model.len() {
                            assert(m2[d] == m1[d]);
                        } else {
                            assert(m2[d] == x.push(u));
                            assert(m1[d] == x);
                        }
                    }
                }
                assert(entries_sorted(entries@)) by {
                    assert forall|a: int, b: int| 0 <= a < b < entries@.len() implies term_lt(
                        #[trigger] entries@[a].term@,
                        #[trigger] entries@[b].term@,
                    ) by {
                        assert(entries@[a].term@ == old_entries[a].term@);
                        assert(entries@[b].term@ == old_entries[b].term@);
                    }
                }
                assert(entries_cover(entries@, m2)) by {
                    assert forall|d: int, k: int|
                        0 <= d < m2.len() && 0 <= k < m2[d].len() implies has_entry(entries@, #[trigger] m2[d][k]) by {
                        if d == model.len() && k == x.len() {
                            assert(entries@[i as int].term@ == m2[d][k]);
                        } else {
                            assert(m2[d][k] == m1[d][k]);
                            let j = choose|j: int| 0 <= j < old_entries.len() && #[trigger] old_entries[j].term@ == m1[d][k];
                            assert(entries@[j].term@ == old_entries[j].term@);
                        }
                    }
                }
            }
        },
        Err(i) => {
            proof {
                assert forall|d: int| 0 <= d < m1.len() implies !(#[trigger] m1[d]).contains(u) by {
                    if m1[d].contains(u) {
                        let k = choose|k: int| 0 <= k < m1[d].len() && m1[d][k] == u;
                        let j = choose|j: int| 0 <= j < old_entries.len() && #[trigger] old_entries[j].term@ == m1[d][k];
                        assert(term_lt(old_entries[j].term@, u) || term_lt(u, old_entries[j].term@));
                    }
                }
                assert(!x.contains(u)) by {
                    assert(m1[model.len() as int] == x);
                }
                if docs_containing(model, u).len() > 0 {
                    let d = docs_containing(model, u)[0];
                    assert(model[d].contains(u));
                    assert(m1[d] == model[d]);
                }
                assert(docs_containing(model, u) =~= Seq::<int>::empty());
                assert(positions_of(x, u) =~= Seq::<int>::empty());
            }
            let mut positions: Vec<usize> = Vec::new();
            positions.push(position);
            let mut postings: Vec<Posting> = Vec::new();
            postings.push(Posting { doc_id, positions });
            let new_entry = TermEntry { term: term.clone(), postings };
            entries.insert(i, new_entry);
            proof {
                assert(entries@ == old_entries.insert(i as int, new_entry));
                assert(entry_ok(new_entry, m2)) by {
                    assert(posting_docs(new_entry.postings@) =~= seq![doc_id as int]);
                    assert(docs_containing(m2, u) =~= seq![doc_id as int]);
                    assert forall|j: int| 0 <= j < new_entry.postings@.len() implies usizes_view(
                        #[trigger] new_entry.postings@[j].positions@,
                    ) == positions_of(m2[new_entry.postings@[j].doc_id as int], new_entry.term@) by {
                        assert(usizes_view(new_entry.postings@[j].positions@) =~= seq![position as int]);
                        assert(positions_of(x, u).push(x.len() as int) =~= seq![position as int]);
                    }
                }
                assert forall|k: int| 0 <= k < entries@.len() implies entry_ok(#[trigger] entries@[k], m2) by {
                    if k != i {
                        let ek = entries@[k];
                        let ok = if k < i { k } else { k - 1 };
                        assert(ek == old_entries[ok]);
                        assert(entry_ok(ek, m1));
                        assert(ek.term@ != u);
                        assert forall|j: int| 0 <= j < ek.postings@.len() implies usizes_view(
                            #[trigger] ek.postings@[j].positions@,
                        ) == positions_of(m2[ek.postings@[j].doc_id as int], ek.term@) by {
                            lemma_docs_containing(m1, ek.term@);
                            assert(posting_docs(ek.postings@)[j] == ek.postings@[j].doc_id);
                            let d = ek.postings@[j].doc_id as int;
                            if d < model.len() {
                                assert(m2[d] == m1[d]);
                            } else {
                                assert(m2[d] == x.push(u));
                                assert(m1[d] == x);
                            }
                        }
                    }
                }
                assert(entries_sorted(entries@)) by {
                    assert forall|a: int, b: int| 0 <= a < b < entries@.len() implies term_lt(
                        #[trigger] entries@[a].term@,
                        #[trigger] entries@[b].term@,
                    ) by {
                        let oa = if a < i { a } else { a - 1 };
                        let ob = if b < i { b } else { b - 1 };
                        if a != i && b != i {
                            assert(entries@[a] == old_entries[oa]);
                            assert(entries@[b] == old_entries[ob]);
                        } else if a == i {
                            assert(entries@[b] == old_entries[ob]);
                        } else {
                            assert(entries@[a] == old_entries[oa]);
                        }
                    }
                }
                assert(entries_cover(entries@, m2)) by {
                    assert forall|d: int, k: int|
                        0 <= d < m2.len() && 0 <= k < m2[d].len() implies has_entry(entries@, #[trigger] m2[d][k]) by {
                        if d == model.len() && k == x.len() {
                            assert(entries@[i as int].term@ == m2[d][k]);
                        } else {
                            assert(m2[d][k] == m1[d][k]);
                            let j = choose|j: int| 0 <= j < old_entries.len() && #[trigger] old_entries[j].term@ == m1[d][k];
                            let nj = if j < i { j } else { j + 1 };
                            assert(entries@[nj].term@ == old_entries[j].term@);
                        }
                    }
                }
            }
        },
    }
}

/// An index stays the index of its model when an empty document is added.
proof fn lemma_index_push_empty(entries: Seq<TermEntry>, model: Seq<Seq<Seq<char>>>)
    requires
        index_ok(entries, model),
    ensures
        index_ok(entries, model.push(Seq::empty())),
{
    let m = model.push(Seq::<Seq<char>>::empty());
    assert(m.drop_last() =~= model);
    assert forall|t: Seq<char>| #[trigger] docs_containing(m, t) == docs_containing(model, t) by {
        assert(!m.last().contains(t));
    }
    assert forall|i: int| 0 <= i < entries.len() implies entry_ok(#[trigger] entries[i], m) by {
        let e = entries[i];
        assert(entry_ok(e, model));
        assert forall|j: int| 0 <= j < e.postings@.len() implies usizes_view(
            #[trigger] e.postings@[j].positions@,
        ) == positions_of(m[e.postings@[j].doc_id as int], e.term@) by {
            lemma_docs_containing(model, e.term@);
            assert(posting_docs(e.postings@)[j] == e.postings@[j].doc_id);
            assert(m[e.postings@[j].doc_id as int] == model[e.postings@[j].doc_id as int]);
        }
    }
    assert forall|d: int, k: int|
        0 <= d < m.len() && 0 <= k < m[d].len() implies has_entry(entries, #[trigger] m[d][k]) by {
        assert(d < model.len());
        assert(m[d] == model[d]);
        assert(model[d][k] == m[d][k]);
        let i = choose|i: int| 0 <= i < entries.len() && #[trigger] entries[i].term@ == model[d][k];
        assert(entries[i].term@ == m[d][k]);
    }
    assert(entries_cover(entries, m));
    assert(entries_sorted(entries));
    assert(index_ok(entries, m));
}

/// A small in-memory search engine backed by an inverted index.
#[derive(Clone)]
pub struct SearchEngine {
    documents: Vec<DocumentMeta>,
    entries: Vec<TermEntry>,
    total_tokens: usize,
    doc_terms: Ghost<Seq<Seq<Seq<char>>>>,
}

/// The metadata of each document.
pub open spec fn docs_view(documents: Seq<DocumentMeta>) -> Seq<DocumentView> {
    documents.map_values(|d: DocumentMeta| d@)
}

/// The metadata recorded for a document added with `path` and `content`
/// as document `id`.
pub open spec fn added_document(id: nat, path: Seq<char>, content: Seq<char>) -> DocumentView {
    DocumentView {
        id,
        path,
        length: token_spans(content).len(),
        content,
        extension: normalized_extension(path_extension(path)),
        title: inferred_title(path, content),
        modified_unix_timestamp_secs: None,
    }
}

impl SearchEngine {
    /// The token terms of every document, by document id: the model against
    /// which the index is specified.
    pub closed spec fn doc_terms(&self) -> Seq<Seq<Seq<char>>> {
        self.doc_terms@
    }

    /// The metadata of every document, by document id.
    pub closed spec fn docs(&self) -> Seq<DocumentView> {
        docs_view(self.documents@)
    }

    /// The engine's internal invariant: document ids and lengths agree with
    /// the model, and the postings are exactly the inverted index of it.
    pub closed spec fn wf(&self) -> bool {
        &&& self.doc_terms@.len() == self.documents@.len()
        &&& forall|d: int|
            0 <= d < self.documents@.len() ==> (#[trigger] self.documents@[d]).id == d
                && self.documents@[d].length == self.doc_terms@[d].len()
        &&& self.total_tokens == total_length(self.doc_terms@)
        &&& index_ok(self.entries@, self.doc_terms@)
    }

    /// The documents of a well-formed engine agree with its model.
    pub proof fn lemma_docs_agree(&self)
        requires
            self.wf(),
        ensures
            self.docs().len() == self.doc_terms().len(),
            forall|d: int|
                0 <= d < self.docs().len() ==> (#[trigger] self.docs()[d]).id == d
                    && self.docs()[d].length == self.doc_terms()[d].len(),
    {
        assert forall|d: int| 0 <= d < self.docs().len() implies (#[trigger] self.docs()[d]).id == d
            && self.docs()[d].length == self.doc_terms()[d].len() by {
            assert(self.docs()[d] == self.documents@[d]@);
        }
    }

    /// The counts of a well-formed engine fit in `usize`.
    pub proof fn lemma_counts_fit(&self)
        requires
            self.wf(),
        ensures
            self.docs().len() == self.doc_terms().len(),
            self.docs().len() <= usize::MAX,
            forall|d: int| 0 <= d < self.doc_terms().len() ==> #[trigger] self.doc_terms()[d].len() <= usize::MAX,
            total_length(self.doc_terms()) <= usize::MAX,
    {
        self.lemma_docs_agree();
        assert(self.documents.len() == self.documents@.len());
        assert forall|d: int| 0 <= d < self.doc_terms().len() implies #[trigger] self.doc_terms()[d].len() <= usize::MAX by {
            assert(self.documents@[d].length == self.doc_terms@[d].len());
        }
    }

    /// Creates an empty engine.
    pub fn new() -> (engine: Self)
        ensures
            engine.wf(),
            engine.doc_terms() == Seq::<Seq<Seq<char>>>::empty(),
            engine.docs() == Seq::<DocumentView>::empty(),
    {
        let engine = SearchEngine {
            documents: Vec::new(),
            entries: Vec::new(),
            total_tokens: 0,
            doc_terms: Ghost(Seq::empty()),
        };
        assert(engine.docs() =~= Seq::<DocumentView>::empty());
        engine
    }

    /// Returns document metadata for all indexed documents.
    pub fn documents(&self) -> (docs: &[DocumentMeta])
        ensures
            docs_view(docs@) == self.docs(),
    {
        self.documents.as_slice()
    }

    /// Returns one document by its id.
    pub fn document(&self, doc_id: usize) -> (doc: Option<&DocumentMeta>)
        ensures
            match doc {
                Some(d) => doc_id < self.docs().len() && d@ == self.docs()[doc_id as int],
                None => doc_id >= self.docs().len(),
            },
    {
        if doc_id < self.documents.len() {
            Some(&self.documents[doc_id])
        } else {
            None
        }
    }

    /// Returns the number of indexed documents.
    pub fn document_count(&self) -> (n: usize)
        ensures
            n == self.docs().len(),
    {
        self.documents.len()
    }

    /// Returns the number of tokens in all documents together.
    pub fn total_token_count(&self) -> (n: usize)
        requires
            self.wf(),
        ensures
            n == total_length(self.doc_terms()),
    {
        self.total_tokens
    }

    /// Adds one document: its tokens are indexed under the next document id.
    pub fn add_document(&mut self, path: &str, content: &str)
        requires
            old(self).wf(),
            total_length(old(self).doc_terms()) + content@.len() <= usize::MAX,
        ensures
            final(self).wf(),
            final(self).doc_terms() == old(self).doc_terms().push(token_terms(content@)),
            final(self).docs() == old(self).docs().push(
                added_document(old(self).docs().len(), path@, content@),
            ),
    {
        let terms = tokenize(content);
        proof {
            lemma_token_spans_are_maximal_runs(content@);
            assert(strings_view(terms@) =~= token_terms(content@));
        }
        let meta = DocumentMeta::new(self.documents.len(), path, terms.len(), content);
        self.push_document(meta, &terms);
    }

    /// Adds a document with the given metadata and token terms, under the
    /// next document id.
    pub(crate) fn push_document(&mut self, meta: DocumentMeta, terms: &Vec<String>)
        requires
            old(self).wf(),
            meta.id == old(self).docs().len(),
            meta.length == terms@.len(),
            total_length(old(self).doc_terms()) + terms@.len() <= usize::MAX,
        ensures
            final(self).wf(),
            final(self).doc_terms() == old(self).doc_terms().push(strings_view(terms@)),
            final(self).docs() == old(self).docs().push(meta@),
    {
        let doc_id = self.documents.len();
        let length = terms.len();
        let ghost model = self.doc_terms@;
        let ghost ts = strings_view(terms@);
        let ghost old_docs = self.documents@;
        proof {
            lemma_index_push_empty(self.entries@, model);
            assert(ts.take(0) =~= Seq::<Seq<char>>::empty());
        }
        for k in 0..length
            invariant
                length == terms@.len(),
                length == ts.len(),
                doc_id == model.len(),
                ts == strings_view(terms@),
                index_ok(self.entries@, model.push(ts.take(k as int))),
                self.documents@ == old_docs,
                self.doc_terms@ == model,
                self.total_tokens == total_length(model),
                doc_id == old_docs.len(),
                total_length(model) + length <= usize::MAX,
                forall|d: int|
                    0 <= d < old_docs.len() ==> (#[trigger] old_docs[d]).id == d
                        && old_docs[d].length == model[d].len(),
        {
            record_occurrence(
                &mut self.entries,
                &terms[k],
                doc_id,
                k,
                Ghost(model),
                Ghost(ts.take(k as int)),
            );
            assert(ts.take(k + 1) =~= ts.take(k as int).push(terms@[k as int]@));
        }
        assert(ts.take(length as int) =~= ts);
        self.documents.push(meta);
        self.total_tokens = self.total_tokens + length;
        self.doc_terms = Ghost(model.push(ts));
        proof {
            assert(model.push(ts).drop_last() =~= model);
            assert(self.docs() =~= docs_view(old_docs).push(meta@));
            assert forall|d: int| 0 <= d < self.documents@.len() implies (#[trigger] self.documents@[d]).id == d
                && self.documents@[d].length == self.doc_terms@[d].len() by {
                if d < old_docs.len() {
                    assert(self.documents@[d] == old_docs[d]);
                }
            }
        }
    }
}

impl Default for SearchEngine {
    fn default() -> (engine: Self)
        ensures
            engine.wf(),
            engine.doc_terms() == Seq::<Seq<Seq<char>>>::empty(),
            engine.docs() == Seq::<DocumentView>::empty(),
    {
        SearchEngine::new()
    }
}

/// The single term that a text normalizes to, if it has exactly one token.
pub open spec fn single_term(s: Seq<char>) -> Option<Seq<char>> {
    if token_spans(s).len() == 1 {
        Some(token_terms(s)[0])
    } else {
        None
    }
}

/// A strictly increasing sequence of terms in Rust's string order.
pub open spec fn terms_strictly_sorted(terms: Seq<Seq<char>>) -> bool {
    forall|i: int, j: int| 0 <= i < j < terms.len() ==> term_lt(#[trigger] terms[i], #[trigger] terms[j])
}

/// The text normalized to a single term, if it is one token.
fn normalize_single_term(term: &str) -> (r: Option<String>)
    ensures
        match r {
            Some(t) => single_term(term@) == Some(t@),
            None => single_term(term@) is None,
        },
{
    let mut tokens = tokenize(term);
    if tokens.len() == 1 {
        tokens.pop()
    } else {
        None
    }
}

impl SearchEngine {
    /// The index of the entry for `term`, or none when no document has it.
    fn entry_index(&self, term: &str) -> (r: Option<usize>)
        requires
            self.wf(),
        ensures
            match r {
                Some(i) => i < self.entries@.len() && self.entries@[i as int].term@ == term@,
                None => !in_vocabulary(self.doc_terms(), term@),
            },
    {
        match find_entry(&self.entries, term) {
            Ok(i) => Some(i),
            Err(i) => {
                proof {
                    lemma_term_lt_strict_total_order();
                    if in_vocabulary(self.doc_terms@, term@) {
                        let model = self.doc_terms@;
                        let d = choose|d: int| 0 <= d < model.len() && #[trigger] model[d].contains(term@);
                        let k = choose|k: int| 0 <= k < model[d].len() && model[d][k] == term@;
                        assert(has_entry(self.entries@, model[d][k]));
                        let j = choose|j: int| 0 <= j < self.entries@.len() && #[trigger] self.entries@[j].term@ == term@;
                        assert(term_lt(self.entries@[j].term@, term@) || term_lt(term@, self.entries@[j].term@));
                    }
                }
                None
            },
        }
    }

    /// The positions of a normalized term in one document, if it occurs there.
    fn positions_for_term_in_doc(&self, term: &str, doc_id: usize) -> (r: Option<&Vec<usize>>)
        requires
            self.wf(),
        ensures
            match r {
                Some(ps) => {
                    &&& doc_id < self.doc_terms().len()
                    &&& self.doc_terms()[doc_id as int].contains(term@)
                    &&& usizes_view(ps@) == positions_of(self.doc_terms()[doc_id as int], term@)
                },
                None => !(doc_id < self.doc_terms().len() && self.doc_terms()[doc_id as int].contains(
                    term@,
                )),
            },
    {
        let ghost model = self.doc_terms@;
        let i = match self.entry_index(term) {
            Some(i) => i,
            None => {
                proof {
                    if doc_id < model.len() && model[doc_id as int].contains(term@) {
                        assert(in_vocabulary(model, term@));
                    }
                }
                return None;
            },
        };
        let ghost e = self.entries@[i as int];
        assert(entry_ok(e, model));
        proof {
            lemma_docs_containing(model, term@);
        }
        let postings = &self.entries[i].postings;
        for j in 0..postings.len()
            invariant
                postings@ == e.postings@,
                model == self.doc_terms@,
                entry_ok(e, model),
                e.term@ == term@,
                forall|m: int| 0 <= m < j ==> postings@[m].doc_id != doc_id,
        {
            if postings[j].doc_id == doc_id {
                proof {
                    assert(posting_docs(e.postings@)[j as int] == doc_id);
                    lemma_docs_containing(model, term@);
                    assert(docs_containing(model, term@)[j as int] == doc_id);
                    assert(usizes_view(postings@[j as int].positions@) == positions_of(model[doc_id as int], term@));
                }
                return Some(&postings[j].positions);
            }
        }
        proof {
            if doc_id < model.len() && model[doc_id as int].contains(term@) {
                lemma_docs_containing(model, term@);
                assert(docs_containing(model, term@).contains(doc_id as int));
                let m = choose|m: int| 0 <= m < docs_containing(model, term@).len() && docs_containing(model, term@)[m] == doc_id;
                assert(posting_docs(e.postings@)[m] == postings@[m].doc_id);
            }
        }
        None
    }

    /// Whether the document contains the (already normalized) term.
    pub(crate) fn contains_normalized_term(&self, doc_id: usize, term: &str) -> (b: bool)
        requires
            self.wf(),
        ensures
            b == (doc_id < self.doc_terms().len() && self.doc_terms()[doc_id as int].contains(term@)),
    {
        self.positions_for_term_in_doc(term, doc_id).is_some()
    }

    /// Returns how many documents contain the term.
    pub fn document_frequency(&self, term: &str) -> (n: usize)
        requires
            self.wf(),
        ensures
            n == match single_term(term@) {
                Some(t) => docs_containing(self.doc_terms(), t).len(),
                None => 0,
            },
    {
        let term = match normalize_single_term(term) {
            Some(t) => t,
            None => return 0,
        };
        proof {
            lemma_docs_containing(self.doc_terms@, term@);
        }
        match self.entry_index(term.as_str()) {
            Some(i) => {
                assert(entry_ok(self.entries@[i as int], self.doc_terms@));
                assert(posting_docs(self.entries@[i as int].postings@).len() == self.entries@[i as int].postings@.len());
                self.entries[i].postings.len()
            },
            None => 0,
        }
    }

    /// Returns the frequency of a term in one document.
    pub fn term_frequency(&self, doc_id: usize, term: &str) -> (n: usize)
        requires
            self.wf(),
        ensures
            n == match single_term(term@) {
                Some(t) => if doc_id < self.doc_terms().len() {
                    positions_of(self.doc_terms()[doc_id as int], t).len()
                } else {
                    0
                },
                None => 0,
            },
    {
        let term = match normalize_single_term(term) {
            Some(t) => t,
            None => return 0,
        };
        match self.positions_for_term_in_doc(term.as_str(), doc_id) {
            Some(positions) => positions.len(),
            None => {
                proof {
                    if doc_id < self.doc_terms@.len() {
                        lemma_positions_of(self.doc_terms@[doc_id as int], term@);
                    }
                }
                0
            },
        }
    }

    /// Reports whether the document contains the term.
    pub fn contains_term(&self, doc_id: usize, term: &str) -> (b: bool)
        requires
            self.wf(),
        ensures
            b == match single_term(term@) {
                Some(t) => doc_id < self.doc_terms().len() && self.doc_terms()[doc_id as int].contains(t),
                None => false,
            },
    {
        match normalize_single_term(term) {
            Some(t) => self.contains_normalized_term(doc_id, t.as_str()),
            None => false,
        }
    }

    /// The entries' terms are exactly the vocabulary, without repetition.
    proof fn lemma_entries_are_vocabulary(&self)
        requires
            self.wf(),
        ensures
            forall|i: int| 0 <= i < self.entries@.len() ==> in_vocabulary(self.doc_terms(), #[trigger] self.entries@[i].term@),
            forall|t: Seq<char>| in_vocabulary(self.doc_terms(), t) ==> has_entry(self.entries@, t),
    {
        let model = self.doc_terms@;
        assert forall|i: int| 0 <= i < self.entries@.len() implies in_vocabulary(model, #[trigger] self.entries@[i].term@) by {
            assert(entry_ok(self.entries@[i], model));
            lemma_docs_containing(model, self.entries@[i].term@);
        }
        assert forall|t: Seq<char>| in_vocabulary(model, t) implies has_entry(self.entries@, t) by {
            let d = choose|d: int| 0 <= d < model.len() && #[trigger] model[d].contains(t);
            let k = choose|k: int| 0 <= k < model[d].len() && model[d][k] == t;
            assert(has_entry(self.entries@, model[d][k]));
        }
    }

    /// Returns the sorted vocabulary: every term that occurs in some
    /// document, once, in Rust's string order.
    pub fn vocabulary(&self) -> (terms: Vec<String>)
        requires
            self.wf(),
        ensures
            strings_view(terms@) == sorted_vocabulary(self.doc_terms()),
            terms_strictly_sorted(strings_view(terms@)),
            forall|t: Seq<char>| #[trigger] strings_view(terms@).contains(t) <==> in_vocabulary(self.doc_terms(), t),
    {
        let mut terms: Vec<String> = Vec::new();
        for i in 0..self.entries.len()
            invariant
                terms@.len() == i,
                i <= self.entries@.len(),
                forall|k: int| 0 <= k < i ==> #[trigger] terms@[k]@ == self.entries@[k].term@,
        {
            terms.push(self.entries[i].term.clone());
        }
        proof {
            self.lemma_entries_are_vocabulary();
            self.lemma_entries_sorted_vocabulary();
            let v = strings_view(terms@);
            assert(v =~= sorted_vocabulary(self.doc_terms@));
            assert forall|t: Seq<char>| #[trigger] v.contains(t) <==> in_vocabulary(self.doc_terms@, t) by {
                if v.contains(t) {
                    let k = choose|k: int| 0 <= k < v.len() && v[k] == t;
                    assert(self.entries@[k].term@ == t);
                }
                if in_vocabulary(self.doc_terms@, t) {
                    let k = choose|k: int| 0 <= k < self.entries@.len() && #[trigger] self.entries@[k].term@ == t;
                    assert(v[k] == t);
                }
            }
            assert forall|a: int, b: int| 0 <= a < b < v.len() implies term_lt(#[trigger] v[a], #[trigger] v[b]) by {
                assert(term_lt(self.entries@[a].term@, self.entries@[b].term@));
            }
        }
        terms
    }

    /// The number of entries is the size of the vocabulary.
    proof fn lemma_vocabulary_size(&self)
        requires
            self.wf(),
        ensures
            self.entries@.len() == vocabulary_set(self.doc_terms()).len(),
            vocabulary_set(self.doc_terms()).finite(),
    {
        self.lemma_entries_are_vocabulary();
        lemma_term_lt_strict_total_order();
        let v = self.entries@.map_values(|e: TermEntry| e.term@);
        assert forall|a: int, b: int| 0 <= a < v.len() && 0 <= b < v.len() && a != b implies v[a] != v[b] by {
            if a < b {
                assert(term_lt(self.entries@[a].term@, self.entries@[b].term@));
            } else {
                assert(term_lt(self.entries@[b].term@, self.entries@[a].term@));
            }
        }
        assert(v.no_duplicates());
        v.unique_seq_to_set();
        assert forall|t: Seq<char>| #[trigger] v.to_set().contains(t) <==> vocabulary_set(self.doc_terms@).contains(t) by {
            if v.contains(t) {
                let k = choose|k: int| 0 <= k < v.len() && v[k] == t;
                assert(self.entries@[k].term@ == t);
            }
            if in_vocabulary(self.doc_terms@, t) {
                let k = choose|k: int| 0 <= k < self.entries@.len() && #[trigger] self.entries@[k].term@ == t;
                assert(v[k] == t);
            }
        }
        assert(v.to_set() =~= vocabulary_set(self.doc_terms@));
    }

    /// Returns the number of distinct terms in the documents.
    pub fn vocabulary_size(&self) -> (n: usize)
        requires
            self.wf(),
        ensures
            n == vocabulary_set(self.doc_terms()).len(),
            vocabulary_set(self.doc_terms()).finite(),
    {
        proof {
            self.lemma_vocabulary_size();
        }
        self.entries.len()
    }
}

/// Whether `s` lists the vocabulary of `model` once each, in Rust's string
/// order.
pub open spec fn is_sorted_vocabulary(s: Seq<Seq<char>>, model: Seq<Seq<Seq<char>>>) -> bool {
    &&& terms_strictly_sorted(s)
    &&& forall|t: Seq<char>| #[trigger] s.contains(t) <==> in_vocabulary(model, t)
}

/// The vocabulary of `model` in Rust's string order.
pub open spec fn sorted_vocabulary(model: Seq<Seq<Seq<char>>>) -> Seq<Seq<char>> {
    choose|s: Seq<Seq<char>>| is_sorted_vocabulary(s, model)
}

/// `t` inserted into a strictly sorted sequence of terms, in its place.
proof fn lemma_sorted_insert(s: Seq<Seq<char>>, t: Seq<char>) -> (r: Seq<Seq<char>>)
    requires
        terms_strictly_sorted(s),
    ensures
        terms_strictly_sorted(r),
        forall|u: Seq<char>| #[trigger] r.contains(u) <==> (s.contains(u) || u == t),
    decreases s.len(),
{
    lemma_term_lt_strict_total_order();
    if s.len() == 0 {
        let r = seq![t];
        assert forall|u: Seq<char>| #[trigger] r.contains(u) <==> (s.contains(u) || u == t) by {
            if r.contains(u) {
                let k = choose|k: int| 0 <= k < r.len() && r[k] == u;
            }
            if u == t {
                assert(r[0] == t);
            }
        }
        r
    } else if s[0] == t {
        assert forall|u: Seq<char>| #[trigger] s.contains(u) <==> (s.contains(u) || u == t) by {
            if u == t {
                assert(s[0] == t);
            }
        }
        s
    } else if term_lt(t, s[0]) {
        let r = seq![t] + s;
        assert forall|a: int, b: int| 0 <= a < b < r.len() implies term_lt(#[trigger] r[a], #[trigger] r[b]) by {
            if a == 0 {
                if b > 1 {
                    assert(term_lt(s[0], s[b - 1]));
                }
                assert(r[b] == s[b - 1]);
            } else {
                assert(term_lt(s[a - 1], s[b - 1]));
            }
        }
        assert forall|u: Seq<char>| #[trigger] r.contains(u) <==> (s.contains(u) || u == t) by {
            if r.contains(u) {
                let k = choose|k: int| 0 <= k < r.len() && r[k] == u;
                if k > 0 {
                    assert(s[k - 1] == u);
                }
            }
            if s.contains(u) {
                let k = choose|k: int| 0 <= k < s.len() && s[k] == u;
                assert(r[k + 1] == u);
            }
            if u == t {
                assert(r[0] == t);
            }
        }
        r
    } else {
        let rest = s.drop_first();
        assert forall|a: int, b: int| 0 <= a < b < rest.len() implies term_lt(#[trigger] rest[a], #[trigger] rest[b]) by {
            assert(term_lt(s[a + 1], s[b + 1]));
        }
        let r2 = lemma_sorted_insert(rest, t);
        let r = seq![s[0]] + r2;
        assert forall|a: int, b: int| 0 <= a < b < r.len() implies term_lt(#[trigger] r[a], #[trigger] r[b]) by {
            if a == 0 {
                assert(r[b] == r2[b - 1]);
                assert(r2.contains(r2[b - 1]));
                if rest.contains(r2[b - 1]) {
                    let k = choose|k: int| 0 <= k < rest.len() && rest[k] == r2[b - 1];
                    assert(term_lt(s[0], s[k + 1]));
                }
            } else {
                assert(term_lt(r2[a - 1], r2[b - 1]));
            }
        }
        assert forall|u: Seq<char>| #[trigger] r.contains(u) <==> (s.contains(u) || u == t) by {
            if r.contains(u) {
                let k = choose|k: int| 0 <= k < r.len() && r[k] == u;
                if k > 0 {
                    assert(r2[k - 1] == u);
                    assert(r2.contains(u));
                    if rest.contains(u) {
                        let m = choose|m: int| 0 <= m < rest.len() && rest[m] == u;
                        assert(s[m + 1] == u);
                    }
                } else {
                    assert(s[0] == u);
                }
            }
            if s.contains(u) {
                let k = choose|k: int| 0 <= k < s.len() && s[k] == u;
                if k > 0 {
                    assert(rest[k - 1] == u);
                    assert(rest.contains(u));
                    assert(r2.contains(u));
                    let m = choose|m: int| 0 <= m < r2.len() && r2[m] == u;
                    assert(r[m + 1] == u);
                } else {
                    assert(r[0] == u);
                }
            }
            if u == t {
                assert(r2.contains(u));
                let m = choose|m: int| 0 <= m < r2.len() && r2[m] == u;
                assert(r[m + 1] == u);
            }
        }
        r
    }
}

/// The terms of `terms` inserted into a strictly sorted sequence.
proof fn lemma_sorted_insert_all(s: Seq<Seq<char>>, terms: Seq<Seq<char>>) -> (r: Seq<Seq<char>>)
    requires
        terms_strictly_sorted(s),
    ensures
        terms_strictly_sorted(r),
        forall|u: Seq<char>| #[trigger] r.contains(u) <==> (s.contains(u) || terms.contains(u)),
    decreases terms.len(),
{
    if terms.len() == 0 {
        s
    } else {
        let r1 = lemma_sorted_insert_all(s, terms.drop_last());
        let r = lemma_sorted_insert(r1, terms.last());
        assert forall|u: Seq<char>| #[trigger] r.contains(u) <==> (s.contains(u) || terms.contains(u)) by {
            if terms.contains(u) {
                let k = choose|k: int| 0 <= k < terms.len() && terms[k] == u;
                if k < terms.len() - 1 {
                    assert(terms.drop_last()[k] == u);
                    assert(terms.drop_last().contains(u));
                }
            }
            if terms.drop_last().contains(u) {
                let k = choose|k: int| 0 <= k < terms.drop_last().len() && terms.drop_last()[k] == u;
                assert(terms[k] == u);
            }
            if u == terms.last() {
                assert(terms[terms.len() - 1] == u);
            }
        }
        r
    }
}

/// Every model has its vocabulary in sorted order.
pub proof fn lemma_sorted_vocabulary(model: Seq<Seq<Seq<char>>>)
    ensures
        is_sorted_vocabulary(sorted_vocabulary(model), model),
{
    let s = lemma_vocabulary_sortable(model);
    assert(is_sorted_vocabulary(s, model));
}

proof fn lemma_vocabulary_sortable(model: Seq<Seq<Seq<char>>>) -> (s: Seq<Seq<char>>)
    ensures
        is_sorted_vocabulary(s, model),
    decreases model.len(),
{
    if model.len() == 0 {
        let s = Seq::<Seq<char>>::empty();
        assert forall|t: Seq<char>| #[trigger] s.contains(t) <==> in_vocabulary(model, t) by {}
        s
    } else {
        let init = model.drop_last();
        let s0 = lemma_vocabulary_sortable(init);
        let s = lemma_sorted_insert_all(s0, model.last());
        assert forall|t: Seq<char>| #[trigger] s.contains(t) <==> in_vocabulary(model, t) by {
            if in_vocabulary(model, t) {
                let d = choose|d: int| 0 <= d < model.len() && #[trigger] model[d].contains(t);
                if d < init.len() {
                    assert(init[d].contains(t));
                    assert(in_vocabulary(init, t));
                    assert(s0.contains(t));
                }
            }
            if s0.contains(t) {
                assert(in_vocabulary(init, t));
                let d = choose|d: int| 0 <= d < init.len() && #[trigger] init[d].contains(t);
                assert(model[d] == init[d]);
            }
            if model.last().contains(t) {
                assert(model[model.len() - 1].contains(t));
            }
        }
        s
    }
}

/// Two strictly sorted sequences of terms with the same elements are equal.
pub proof fn lemma_strictly_sorted_unique(a: Seq<Seq<char>>, b: Seq<Seq<char>>)
    requires
        terms_strictly_sorted(a),
        terms_strictly_sorted(b),
        forall|t: Seq<char>| #[trigger] a.contains(t) <==> b.contains(t),
    ensures
        a == b,
    decreases a.len(),
{
    lemma_term_lt_strict_total_order();
    if a.len() == 0 {
        if b.len() > 0 {
            assert(b.contains(b[0]));
            assert(a.contains(b[0]));
        }
        assert(a =~= b);
    } else {
        assert(a.contains(a[0]));
        assert(b.contains(a[0]));
        let j = choose|j: int| 0 <= j < b.len() && b[j] == a[0];
        assert(b.contains(b[0]));
        assert(a.contains(b[0]));
        let i = choose|i: int| 0 <= i < a.len() && a[i] == b[0];
        if j > 0 {
            assert(term_lt(b[0], b[j]));
            if i > 0 {
                assert(term_lt(a[0], a[i]));
            }
            assert(false);
        }
        let a2 = a.drop_first();
        let b2 = b.drop_first();
        assert forall|t: Seq<char>| #[trigger] a2.contains(t) <==> b2.contains(t) by {
            if a2.contains(t) {
                let k = choose|k: int| 0 <= k < a2.len() && a2[k] == t;
                assert(a[k + 1] == t);
                assert(term_lt(a[0], a[k + 1]));
                assert(a.contains(t));
                assert(b.contains(t));
                let m = choose|m: int| 0 <= m < b.len() && b[m] == t;
                assert(m != 0);
                assert(b2[m - 1] == t);
            }
            if b2.contains(t) {
                let k = choose|k: int| 0 <= k < b2.len() && b2[k] == t;
                assert(b[k + 1] == t);
                assert(term_lt(b[0], b[k + 1]));
                assert(b.contains(t));
                assert(a.contains(t));
                let m = choose|m: int| 0 <= m < a.len() && a[m] == t;
                assert(m != 0);
                assert(a2[m - 1] == t);
            }
        }
        assert forall|x: int, y: int| 0 <= x < y < a2.len() implies term_lt(#[trigger] a2[x], #[trigger] a2[y]) by {
            assert(term_lt(a[x + 1], a[y + 1]));
        }
        assert forall|x: int, y: int| 0 <= x < y < b2.len() implies term_lt(#[trigger] b2[x], #[trigger] b2[y]) by {
            assert(term_lt(b[x + 1], b[y + 1]));
        }
        lemma_strictly_sorted_unique(a2, b2);
        assert(a =~= b) by {
            assert forall|k: int| 0 <= k < a.len() implies a[k] == b[k] by {
                if k > 0 {
                    assert(a[k] == a2[k - 1]);
                    assert(b[k] == b2[k - 1]);
                }
            }
        }
    }
}

impl SearchEngine {
    /// The terms of the entries are the sorted vocabulary.
    proof fn lemma_entries_sorted_vocabulary(&self)
        requires
            self.wf(),
        ensures
            self.entries@.len() == sorted_vocabulary(self.doc_terms()).len(),
            forall|i: int|
                0 <= i < self.entries@.len() ==> #[trigger] self.entries@[i].term@ == sorted_vocabulary(
                    self.doc_terms(),
                )[i],
            is_sorted_vocabulary(sorted_vocabulary(self.doc_terms()), self.doc_terms()),
    {
        let model = self.doc_terms@;
        self.lemma_entries_are_vocabulary();
        let v = self.entries@.map_values(|e: TermEntry| e.term@);
        assert forall|t: Seq<char>| #[trigger] v.contains(t) <==> in_vocabulary(model, t) by {
            if v.contains(t) {
                let k = choose|k: int| 0 <= k < v.len() && v[k] == t;
                assert(self.entries@[k].term@ == t);
            }
            if in_vocabulary(model, t) {
                let k = choose|k: int| 0 <= k < self.entries@.len() && #[trigger] self.entries@[k].term@ == t;
                assert(v[k] == t);
            }
        }
        assert forall|a: int, b: int| 0 <= a < b < v.len() implies term_lt(#[trigger] v[a], #[trigger] v[b]) by {
            assert(term_lt(self.entries@[a].term@, self.entries@[b].term@));
        }
        assert(is_sorted_vocabulary(v, model));
        let sv = sorted_vocabulary(model);
        assert(is_sorted_vocabulary(sv, model));
        assert forall|t: Seq<char>| #[trigger] v.contains(t) <==> sv.contains(t) by {}
        lemma_strictly_sorted_unique(v, sv);
    }

    /// The number of terms in the vocabulary.
    pub(crate) fn entry_count(&self) -> (n: usize)
        requires
            self.wf(),
        ensures
            n == sorted_vocabulary(self.doc_terms()).len(),
    {
        proof {
            self.lemma_entries_sorted_vocabulary();
        }
        self.entries.len()
    }

    /// The `i`-th term of the sorted vocabulary.
    pub(crate) fn entry_term(&self, i: usize) -> (t: &String)
        requires
            self.wf(),
            i < sorted_vocabulary(self.doc_terms()).len(),
        ensures
            t@ == sorted_vocabulary(self.doc_terms())[i as int],
    {
        proof {
            self.lemma_entries_sorted_vocabulary();
        }
        &self.entries[i].term
    }

    /// The postings of the `i`-th term of the sorted vocabulary: one per
    /// document that contains it, by increasing document id, each with the
    /// positions of the term in that document.
    pub(crate) fn entry_postings(&self, i: usize) -> (ps: &Vec<Posting>)
        requires
            self.wf(),
            i < sorted_vocabulary(self.doc_terms()).len(),
        ensures
            posting_docs(ps@) == docs_containing(self.doc_terms(), sorted_vocabulary(self.doc_terms())[i as int]),
            forall|j: int|
                0 <= j < ps@.len() ==> usizes_view(#[trigger] ps@[j].positions@) == positions_of(
                    self.doc_terms()[ps@[j].doc_id as int],
                    sorted_vocabulary(self.doc_terms())[i as int],
                ),
    {
        proof {
            self.lemma_entries_sorted_vocabulary();
            assert(entry_ok(self.entries@[i as int], self.doc_terms@));
        }
        &self.entries[i].postings
    }
}

/// Aggregate statistics for one term of the vocabulary.
#[derive(Debug, Clone, PartialEq, Eq)]
pub struct TermStat {
    pub term: String,
    pub document_frequency: usize,
    pub total_frequency: usize,
}

pub struct TermStatView {
    pub term: Seq<char>,
    pub document_frequency: nat,
    pub total_frequency: nat,
}

impl View for TermStat {
    type V = TermStatView;

    open spec fn view(&self) -> TermStatView {
        TermStatView {
            term: self.term@,
            document_frequency: self.document_frequency as nat,
            total_frequency: self.total_frequency as nat,
        }
    }
}

/// The statistics of `t`: how many documents contain it and how often it
/// occurs in all of them.
pub open spec fn stat_of(model: Seq<Seq<Seq<char>>>, t: Seq<char>) -> TermStatView {
    TermStatView {
        term: t,
        document_frequency: docs_containing(model, t).len(),
        total_frequency: total_occurrences(model, t),
    }
}

/// The ranking of term statistics: higher total frequency first, then
/// higher document frequency, then the term in Rust's string order.
pub open spec fn ranks_before(a: TermStatView, b: TermStatView) -> bool {
    ||| a.total_frequency > b.total_frequency
    ||| a.total_frequency == b.total_frequency && a.document_frequency > b.document_frequency
    ||| a.total_frequency == b.total_frequency && a.document_frequency == b.document_frequency
        && term_lt(a.term, b.term)
}

pub proof fn lemma_ranks_before_strict_total_order()
    ensures
        forall|a: TermStatView| !ranks_before(a, a),
        forall|a: TermStatView, b: TermStatView, c: TermStatView|
            #[trigger] ranks_before(a, b) && #[trigger] ranks_before(b, c) ==> ranks_before(a, c),
        forall|a: TermStatView, b: TermStatView|
            a.term != b.term ==> #[trigger] ranks_before(a, b) || #[trigger] ranks_before(b, a),
        forall|a: TermStatView, b: TermStatView| #[trigger] ranks_before(a, b) ==> !ranks_before(b, a),
{
    lemma_term_lt_strict_total_order();
}

/// The sum of the numbers of positions of some postings.
pub(crate) open spec fn positions_total(ps: Seq<Posting>) -> nat
    decreases ps.len(),
{
    if ps.len() == 0 {
        0
    } else {
        positions_total(ps.drop_last()) + ps.last().positions@.len()
    }
}

/// The number of occurrences of `t` in the documents `ds`.
pub open spec fn occurrences_in(model: Seq<Seq<Seq<char>>>, ds: Seq<int>, t: Seq<char>) -> nat
    decreases ds.len(),
{
    if ds.len() == 0 {
        0
    } else {
        occurrences_in(model, ds.drop_last(), t) + positions_of(model[ds.last()], t).len()
    }
}

proof fn lemma_occurrences_in_prefix_model(
    model: Seq<Seq<Seq<char>>>,
    shorter: Seq<Seq<Seq<char>>>,
    ds: Seq<int>,
    t: Seq<char>,
)
    requires
        shorter.len() <= model.len(),
        forall|d: int| 0 <= d < shorter.len() ==> #[trigger] shorter[d] == model[d],
        forall|i: int| 0 <= i < ds.len() ==> 0 <= #[trigger] ds[i] < shorter.len(),
    ensures
        occurrences_in(model, ds, t) == occurrences_in(shorter, ds, t),
    decreases ds.len(),
{
    if ds.len() > 0 {
        lemma_occurrences_in_prefix_model(model, shorter, ds.drop_last(), t);
        assert(shorter[ds.last()] == model[ds.last()]);
    }
}

/// Counting over the documents that contain `t` counts all its occurrences.
proof fn lemma_occurrences_in_docs_containing(model: Seq<Seq<Seq<char>>>, t: Seq<char>)
    ensures
        occurrences_in(model, docs_containing(model, t), t) == total_occurrences(model, t),
    decreases model.len(),
{
    if model.len() > 0 {
        let shorter = model.drop_last();
        lemma_occurrences_in_docs_containing(shorter, t);
        lemma_docs_containing(shorter, t);
        lemma_occurrences_in_prefix_model(model, shorter, docs_containing(shorter, t), t);
        let ds = docs_containing(model, t);
        if model.last().contains(t) {
            assert(ds.drop_last() =~= docs_containing(shorter, t));
        } else {
            lemma_positions_of(model.last(), t);
        }
    }
}

/// The postings of an entry hold all the occurrences of its term.
proof fn lemma_positions_total(e: TermEntry, model: Seq<Seq<Seq<char>>>, j: int)
    requires
        entry_ok(e, model),
        0 <= j <= e.postings@.len(),
    ensures
        positions_total(e.postings@.take(j)) == occurrences_in(model, docs_containing(model, e.term@).take(j), e.term@),
    decreases j,
{
    if j > 0 {
        lemma_positions_total(e, model, j - 1);
        assert(e.postings@.take(j).drop_last() =~= e.postings@.take(j - 1));
        let ds = docs_containing(model, e.term@);
        assert(ds.take(j).drop_last() =~= ds.take(j - 1));
        assert(posting_docs(e.postings@)[j - 1] == e.postings@[j - 1].doc_id);
        assert(usizes_view(e.postings@[j - 1].positions@).len() == e.postings@[j - 1].positions@.len());
    }
}

impl SearchEngine {
    /// The statistics of the entry with index `i`.
    fn entry_stat(&self, i: usize) -> (stat: TermStat)
        requires
            self.wf(),
            i < self.entries@.len(),
        ensures
            stat@ == stat_of(self.doc_terms(), self.entries@[i as int].term@),
    {
        let ghost model = self.doc_terms@;
        let ghost e = self.entries@[i as int];
        let postings = &self.entries[i].postings;
        assert(entry_ok(e, model));
        proof {
            lemma_occurrences_in_docs_containing(model, e.term@);
            lemma_total_occurrences_bound(model, e.term@);
            lemma_positions_total(e, model, e.postings@.len() as int);
            assert(e.postings@.take(e.postings@.len() as int) =~= e.postings@);
            assert(docs_containing(model, e.term@).take(e.postings@.len() as int) =~= docs_containing(model, e.term@));
            assert(posting_docs(e.postings@).len() == e.postings@.len());
        }
        let mut total: usize = 0;
        for j in 0..postings.len()
            invariant
                postings@ == e.postings@,
                model == self.doc_terms@,
                self.wf(),
                entry_ok(e, model),
                total == positions_total(e.postings@.take(j as int)),
                positions_total(e.postings@) == total_occurrences(model, e.term@),
                total_occurrences(model, e.term@) <= total_length(model),
                self.total_tokens == total_length(model),
        {
            proof {
                lemma_positions_total_prefix(e.postings@, j as int + 1);
                assert(e.postings@.take(j + 1).drop_last() =~= e.postings@.take(j as int));
            }
            total = total + postings[j].positions.len();
        }
        assert(e.postings@.take(e.postings@.len() as int) =~= e.postings@);
        TermStat {
            term: self.entries[i].term.clone(),
            document_frequency: postings.len(),
            total_frequency: total,
        }
    }
}

/// Prefixes of postings hold no more positions than all of them.
proof fn lemma_positions_total_prefix(ps: Seq<Posting>, j: int)
    requires
        0 <= j <= ps.len(),
    ensures
        positions_total(ps.take(j)) <= positions_total(ps),
    decreases ps.len() - j,
{
    if j < ps.len() {
        lemma_positions_total_prefix(ps, j + 1);
        assert(ps.take(j + 1).drop_last() =~= ps.take(j));
    } else {
        assert(ps.take(j) =~= ps);
    }
}

/// `min(a, b)`.
pub open spec fn min_nat(a: nat, b: nat) -> nat {
    if a < b {
        a
    } else {
        b
    }
}

/// Terms that all differ.
pub open spec fn stat_terms_distinct(stats: Seq<TermStatView>) -> bool {
    forall|i: int, k: int|
        0 <= i < stats.len() && 0 <= k < stats.len() && i != k ==> (#[trigger] stats[i]).term
            != (#[trigger] stats[k]).term
}

/// Ranked best first.
pub open spec fn ranked(r: Seq<TermStatView>) -> bool {
    forall|a: int, b: int| 0 <= a < b < r.len() ==> ranks_before(#[trigger] r[a], #[trigger] r[b])
}

/// Every element of `r` is one of `stats`.
pub open spec fn drawn_from(r: Seq<TermStatView>, stats: Seq<TermStatView>) -> bool {
    forall|a: int| 0 <= a < r.len() ==> is_one_of(stats, #[trigger] r[a])
}

/// `x` is one of `stats`.
pub open spec fn is_one_of(stats: Seq<TermStatView>, x: TermStatView) -> bool {
    exists|i: int| 0 <= i < stats.len() && #[trigger] stats[i] == x
}

/// Whether `r` holds a statistic for the term of `x`.
pub open spec fn holds_term_of(r: Seq<TermStatView>, x: TermStatView) -> bool {
    exists|a: int| 0 <= a < r.len() && #[trigger] r[a].term == x.term
}

/// Every element of `r` ranks before `x`.
pub open spec fn all_rank_before(r: Seq<TermStatView>, x: TermStatView) -> bool {
    forall|a: int| 0 <= a < r.len() ==> ranks_before(#[trigger] r[a], x)
}

/// Every statistic left out of `r` ranks after all of `r`.
pub open spec fn dominates(r: Seq<TermStatView>, stats: Seq<TermStatView>) -> bool {
    forall|i: int| 0 <= i < stats.len() ==> holds_term_of(r, #[trigger] stats[i]) || all_rank_before(r, stats[i])
}

/// `r` is the best-ranked `limit` of `stats` (all of them when there are
/// fewer), best first.
pub open spec fn is_top_of(r: Seq<TermStatView>, stats: Seq<TermStatView>, limit: nat) -> bool {
    &&& r.len() == min_nat(limit, stats.len())
    &&& ranked(r)
    &&& drawn_from(r, stats)
    &&& dominates(r, stats)
}

/// Nothing was left out of `r` while there was room.
pub open spec fn keeps_all_while_room(r: Seq<TermStatView>, stats: Seq<TermStatView>, limit: nat) -> bool {
    r.len() < limit ==> forall|i: int| 0 <= i < stats.len() ==> holds_term_of(r, #[trigger] stats[i])
}

/// The ranking as kept while it is built.
pub open spec fn top_so_far(r: Seq<TermStatView>, stats: Seq<TermStatView>, limit: nat) -> bool {
    &&& is_top_of(r, stats, limit)
    &&& keeps_all_while_room(r, stats, limit)
}

/// The ranking after inserting `s` at `p` and dropping the last element
/// when there is no room.
pub open spec fn inserted_top(r: Seq<TermStatView>, s: TermStatView, p: int, limit: nat) -> Seq<TermStatView> {
    if r.insert(p, s).len() > limit {
        r.insert(p, s).drop_last()
    } else {
        r.insert(p, s)
    }
}

/// Where `s` goes in `r`.
pub open spec fn rank_position(r: Seq<TermStatView>, s: TermStatView, p: int) -> bool {
    &&& 0 <= p <= r.len()
    &&& forall|a: int| 0 <= a < p ==> ranks_before(#[trigger] r[a], s)
    &&& forall|a: int| p <= a < r.len() ==> ranks_before(s, #[trigger] r[a])
}

proof fn lemma_inserted_top_shape(r: Seq<TermStatView>, s: TermStatView, p: int, limit: nat)
    requires
        0 <= p <= r.len(),
    ensures
        forall|a: int|
            0 <= a < inserted_top(r, s, p, limit).len() ==> #[trigger] inserted_top(r, s, p, limit)[a]
                == if a < p {
                r[a]
            } else if a == p {
                s
            } else {
                r[a - 1]
            },
        inserted_top(r, s, p, limit).len() == if r.len() + 1 > limit {
            r.len() as int
        } else {
            r.len() + 1 as int
        },
{
}

proof fn lemma_top_insert_ranked(r: Seq<TermStatView>, s: TermStatView, p: int, limit: nat)
    requires
        ranked(r),
        rank_position(r, s, p),
    ensures
        ranked(inserted_top(r, s, p, limit)),
{
    lemma_ranks_before_strict_total_order();
    lemma_inserted_top_shape(r, s, p, limit);
    let r2 = inserted_top(r, s, p, limit);
    assert forall|a: int, b: int| 0 <= a < b < r2.len() implies ranks_before(#[trigger] r2[a], #[trigger] r2[b]) by {
        if a < p && b > p {
            assert(ranks_before(r[a], s));
        } else if a > p {
            assert(ranks_before(r[a - 1], r[b - 1]));
        }
    }
}

proof fn lemma_top_insert_drawn(r: Seq<TermStatView>, stats: Seq<TermStatView>, s: TermStatView, p: int, limit: nat)
    requires
        drawn_from(r, stats),
        0 <= p <= r.len(),
    ensures
        drawn_from(inserted_top(r, s, p, limit), stats.push(s)),
{
    lemma_inserted_top_shape(r, s, p, limit);
    let r2 = inserted_top(r, s, p, limit);
    let stats2 = stats.push(s);
    assert forall|a: int| 0 <= a < r2.len() implies is_one_of(stats2, #[trigger] r2[a]) by {
        if a == p {
            assert(stats2[stats.len() as int] == r2[a]);
        } else {
            let ra = if a < p { a } else { a - 1 };
            assert(r2[a] == r[ra]);
            assert(is_one_of(stats, r[ra]));
            let i = choose|i: int| 0 <= i < stats.len() && #[trigger] stats[i] == r[ra];
            assert(stats2[i] == r2[a]);
        }
    }
}

proof fn lemma_top_insert_room(r: Seq<TermStatView>, stats: Seq<TermStatView>, s: TermStatView, p: int, limit: nat)
    requires
        keeps_all_while_room(r, stats, limit),
        0 <= p <= r.len(),
    ensures
        keeps_all_while_room(inserted_top(r, s, p, limit), stats.push(s), limit),
{
    lemma_inserted_top_shape(r, s, p, limit);
    let r2 = inserted_top(r, s, p, limit);
    let stats2 = stats.push(s);
    if r2.len() < limit {
        assert forall|i: int| 0 <= i < stats2.len() implies holds_term_of(r2, #[trigger] stats2[i]) by {
            if i == stats.len() {
                assert(r2[p].term == stats2[i].term);
            } else {
                assert(stats2[i] == stats[i]);
                assert(holds_term_of(r, stats[i]));
                let a = choose|a: int| 0 <= a < r.len() && #[trigger] r[a].term == stats[i].term;
                let a2 = if a < p { a } else { a + 1 };
                assert(r2[a2] == r[a]);
            }
        }
    }
}

#[verifier::spinoff_prover]
proof fn lemma_top_insert_dominates(r: Seq<TermStatView>, stats: Seq<TermStatView>, s: TermStatView, p: int, limit: nat)
    requires
        top_so_far(r, stats, limit),
        limit > 0,
        stat_terms_distinct(stats.push(s)),
        rank_position(r, s, p),
    ensures
        dominates(inserted_top(r, s, p, limit), stats.push(s)),
{
    lemma_ranks_before_strict_total_order();
    lemma_inserted_top_shape(r, s, p, limit);
    lemma_top_insert_ranked(r, s, p, limit);
    let n = stats.len();
    let r2 = inserted_top(r, s, p, limit);
    let stats2 = stats.push(s);
    assert forall|i: int| 0 <= i < stats2.len() implies holds_term_of(r2, #[trigger] stats2[i]) || all_rank_before(r2, stats2[i]) by {
        if i == n {
            if p < r2.len() {
                assert(r2[p].term == stats2[i].term);
            } else {
                assert forall|a: int| 0 <= a < r2.len() implies ranks_before(#[trigger] r2[a], stats2[i]) by {
                    assert(r2[a] == r[a]);
                }
            }
        } else {
            assert(stats2[i] == stats[i]);
            if holds_term_of(r, stats[i]) {
                let a = choose|a: int| 0 <= a < r.len() && #[trigger] r[a].term == stats[i].term;
                let a2 = if a < p { a } else { a + 1 };
                if a2 < r2.len() {
                    assert(r2[a2].term == stats2[i].term);
                } else {
                    assert(is_one_of(stats, r[a]));
                    let k = choose|k: int| 0 <= k < stats.len() && #[trigger] stats[k] == r[a];
                    assert(stats2[k] == stats[k]);
                    assert(k == i);
                    assert forall|b: int| 0 <= b < r2.len() implies ranks_before(#[trigger] r2[b], stats2[i]) by {
                        if b < p {
                            assert(ranks_before(r[b], r[a]) || b == a);
                        } else if b == p {
                            assert(ranks_before(s, r[a]));
                        } else {
                            assert(ranks_before(r[b - 1], r[a]));
                        }
                    }
                }
            } else {
                assert(all_rank_before(r, stats[i]));
                assert(r.len() == limit);
                assert forall|a: int| 0 <= a < r2.len() implies ranks_before(#[trigger] r2[a], stats2[i]) by {
                    if a == p {
                        assert(ranks_before(r[p], stats[i]));
                    } else {
                        let ra = if a < p { a } else { a - 1 };
                        assert(ranks_before(r[ra], stats[i]));
                    }
                }
            }
        }
    }
}

/// Inserting the next statistic at its rank, and dropping the last one
/// when there is no room, keeps the ranking.
proof fn lemma_top_insert(r: Seq<TermStatView>, stats: Seq<TermStatView>, s: TermStatView, limit: nat, p: int)
    requires
        top_so_far(r, stats, limit),
        limit > 0,
        stat_terms_distinct(stats.push(s)),
        rank_position(r, s, p),
    ensures
        top_so_far(inserted_top(r, s, p, limit), stats.push(s), limit),
{
    lemma_inserted_top_shape(r, s, p, limit);
    lemma_top_insert_ranked(r, s, p, limit);
    lemma_top_insert_drawn(r, stats, s, p, limit);
    lemma_top_insert_room(r, stats, s, p, limit);
    lemma_top_insert_dominates(r, stats, s, p, limit);
}

/// `r` is the `limit` best-ranked statistics of the vocabulary of `model`
/// (all of them when there are fewer), best first.
pub open spec fn is_top_terms(r: Seq<TermStatView>, model: Seq<Seq<Seq<char>>>, limit: nat) -> bool {
    &&& r.len() == min_nat(limit, vocabulary_set(model).len())
    &&& ranked(r)
    &&& forall|a: int|
        0 <= a < r.len() ==> in_vocabulary(model, (#[trigger] r[a]).term) && r[a] == stat_of(model, r[a].term)
    &&& forall|t: Seq<char>|
        in_vocabulary(model, t) ==> holds_term_of(r, #[trigger] stat_of(model, t)) || all_rank_before(r, stat_of(model, t))
}

/// Whether `a` ranks before `b`.
fn stat_ranks_before(a: &TermStat, b: &TermStat) -> (r: bool)
    ensures
        r == ranks_before(a@, b@),
{
    if a.total_frequency != b.total_frequency {
        return a.total_frequency > b.total_frequency;
    }
    if a.document_frequency != b.document_frequency {
        return a.document_frequency > b.document_frequency;
    }
    match compare_terms(a.term.as_str(), b.term.as_str()) {
        TermOrder::Before => true,
        _ => false,
    }
}

/// The views of some statistics.
pub open spec fn stats_view(v: Seq<TermStat>) -> Seq<TermStatView> {
    v.map_values(|t: TermStat| t@)
}

impl SearchEngine {
    /// The statistics of the first `j` entries.
    closed spec fn entry_stats(&self, j: int) -> Seq<TermStatView> {
        Seq::new(j as nat, |i: int| stat_of(self.doc_terms@, self.entries@[i].term@))
    }

    /// Returns the `limit` most frequent terms of the vocabulary: by total
    /// number of occurrences, then by number of documents, then by term.
    pub fn top_terms(&self, limit: usize) -> (stats: Vec<TermStat>)
        requires
            self.wf(),
        ensures
            is_top_terms(stats_view(stats@), self.doc_terms(), limit as nat),
    {
        proof {
            self.lemma_vocabulary_size();
            self.lemma_entries_are_vocabulary();
        }
        if limit == 0 {
            let empty: Vec<TermStat> = Vec::new();
            assert(stats_view(empty@) =~= Seq::<TermStatView>::empty());
            return empty;
        }
        let mut top: Vec<TermStat> = Vec::new();
        proof {
            assert(stats_view(top@) =~= Seq::<TermStatView>::empty());
            assert(self.entry_stats(0) =~= Seq::<TermStatView>::empty());
        }
        for j in 0..self.entries.len()
            invariant
                self.wf(),
                limit > 0,
                top_so_far(stats_view(top@), self.entry_stats(j as int), limit as nat),
        {
            let stat = self.entry_stat(j);
            let mut p: usize = 0;
            let ghost r = stats_view(top@);
            proof {
                lemma_ranks_before_strict_total_order();
                lemma_term_lt_strict_total_order();
            }
            while p < top.len() && stat_ranks_before(&top[p], &stat)
                invariant
                    p <= top@.len(),
                    r == stats_view(top@),
                    forall|a: int| 0 <= a < p ==> ranks_before(#[trigger] r[a], stat@),
                decreases top@.len() - p,
            {
                p = p + 1;
            }
            proof {
                let stats = self.entry_stats(j as int);
                let stats2 = self.entry_stats(j + 1);
                assert(stats2 =~= stats.push(stat@));
                assert(stat_terms_distinct(stats2)) by {
                    assert forall|i: int, k: int|
                        0 <= i < stats2.len() && 0 <= k < stats2.len() && i != k implies (#[trigger] stats2[i]).term
                            != (#[trigger] stats2[k]).term by {
                        if i < k {
                            assert(term_lt(self.entries@[i].term@, self.entries@[k].term@));
                        } else {
                            assert(term_lt(self.entries@[k].term@, self.entries@[i].term@));
                        }
                    }
                }
                assert(rank_position(r, stat@, p as int)) by {
                    if p < r.len() {
                        assert(!ranks_before(r[p as int], stat@));
                        assert(holds_term_of(r, r[p as int]) || true);
                        assert(is_one_of(stats, r[p as int]));
                        let i = choose|i: int| 0 <= i < stats.len() && #[trigger] stats[i] == r[p as int];
                        assert(stats2[i] == stats[i]);
                        assert(stats2[j as int] == stat@);
                        assert(r[p as int].term != stat@.term);
                        assert(ranks_before(stat@, r[p as int]));
                        assert forall|a: int| p <= a < r.len() implies ranks_before(stat@, #[trigger] r[a]) by {
                            if a > p {
                                assert(ranks_before(r[p as int], r[a]));
                            }
                        }
                    }
                }
                lemma_top_insert(r, stats, stat@, limit as nat, p as int);
            }
            top.insert(p, stat);
            proof {
                assert(stats_view(top@) =~= r.insert(p as int, stat@));
            }
            if top.len() > limit {
                top.pop();
                proof {
                    assert(stats_view(top@) =~= r.insert(p as int, stat@).drop_last());
                }
            }
        }
        proof {
            let model = self.doc_terms@;
            let r = stats_view(top@);
            let stats = self.entry_stats(self.entries@.len() as int);
            assert forall|a: int| 0 <= a < r.len() implies in_vocabulary(model, (#[trigger] r[a]).term)
                && r[a] == stat_of(model, r[a].term) by {
                assert(is_one_of(stats, r[a]));
                let i = choose|i: int| 0 <= i < stats.len() && #[trigger] stats[i] == r[a];
                assert(in_vocabulary(model, self.entries@[i].term@));
            }
            assert forall|t: Seq<char>| in_vocabulary(model, t) implies holds_term_of(r, #[trigger] stat_of(model, t))
                || all_rank_before(r, stat_of(model, t)) by {
                assert(has_entry(self.entries@, t));
                let i = choose|i: int| 0 <= i < self.entries@.len() && #[trigger] self.entries@[i].term@ == t;
                assert(stats[i] == stat_of(model, t));
            }
        }
        top
    }
}

/// `js` picks an occurrence of every term of the phrase `ts` in `doc`, in
/// the phrase's order.
pub open spec fn is_phrase_window(doc: Seq<Seq<char>>, ts: Seq<Seq<char>>, js: Seq<int>) -> bool {
    &&& ts.len() > 0
    &&& js.len() == ts.len()
    &&& forall|i: int| 0 <= i < js.len() ==> 0 <= #[trigger] js[i] < doc.len() && doc[js[i]] == ts[i]
    &&& forall|i: int| 0 <= i < js.len() - 1 ==> #[trigger] js[i] < js[i + 1]
}

/// The slop of a window: how many other tokens lie between its first and
/// its last term.
pub open spec fn window_slop(js: Seq<int>) -> int {
    js.last() - js[0] - (js.len() - 1)
}

/// `s` is the least slop of a window of the phrase within `max_slop`.
pub open spec fn is_least_slop(doc: Seq<Seq<char>>, ts: Seq<Seq<char>>, max_slop: nat, s: nat) -> bool {
    &&& exists|js: Seq<int>| #[trigger] is_phrase_window(doc, ts, js) && window_slop(js) == s && s <= max_slop
    &&& forall|js: Seq<int>|
        #[trigger] is_phrase_window(doc, ts, js) && window_slop(js) <= max_slop ==> s <= window_slop(js)
}

/// How closely a document matches a phrase: the least slop of its windows
/// of the phrase, when some window has a slop of at most `max_slop`.
pub open spec fn phrase_slop(doc: Seq<Seq<char>>, ts: Seq<Seq<char>>, max_slop: nat) -> Option<nat> {
    if exists|js: Seq<int>| #[trigger] is_phrase_window(doc, ts, js) && window_slop(js) <= max_slop {
        Some(choose|s: nat| is_least_slop(doc, ts, max_slop, s))
    } else {
        None
    }
}

/// The position lists of the phrase's terms in a document.
pub open spec fn phrase_position_lists(doc: Seq<Seq<char>>, ts: Seq<Seq<char>>) -> Seq<Seq<int>> {
    Seq::new(ts.len(), |i: int| positions_of(doc, ts[i]))
}

/// Position lists as integers.
pub open spec fn lists_view(pl: Seq<&Vec<usize>>) -> Seq<Seq<int>> {
    Seq::new(pl.len(), |i: int| usizes_view(pl[i]@))
}

/// `ps` picks one position from each list from list `k` on, in increasing
/// order, all after position `prev`.
pub open spec fn is_chain(lists: Seq<Seq<int>>, k: int, prev: int, ps: Seq<int>) -> bool {
    &&& ps.len() == lists.len() - k
    &&& forall|i: int| 0 <= i < ps.len() ==> lists[k + i].contains(#[trigger] ps[i])
    &&& ps.len() > 0 ==> prev < ps[0]
    &&& forall|i: int| 0 <= i < ps.len() - 1 ==> #[trigger] ps[i] < ps[i + 1]
}

/// The slop accumulated when a chain continues a window with slop `used`
/// so far that reached position `prev`.
pub open spec fn chain_cost(prev: int, used: int, ps: Seq<int>) -> int {
    if ps.len() == 0 {
        used
    } else {
        used + ps.last() - prev - ps.len()
    }
}

/// A chain that starts before `lim` (or has nothing left to place); with
/// no limit, every chain.
pub open spec fn starts_below(ps: Seq<int>, lim: Option<int>) -> bool {
    ps.len() == 0 || match lim {
        Some(l) => ps[0] < l,
        None => true,
    }
}

/// `r` is the least cost within `max` of the chains that start below
/// `lim`; none when no such chain is within `max`.
pub open spec fn least_cost_below(
    lists: Seq<Seq<int>>,
    k: int,
    prev: int,
    used: int,
    max: int,
    lim: Option<int>,
    r: Option<usize>,
) -> bool {
    match r {
        Some(c) => {
            &&& exists|ps: Seq<int>|
                #[trigger] is_chain(lists, k, prev, ps) && starts_below(ps, lim) && chain_cost(prev, used, ps) == c
            &&& c <= max
            &&& forall|ps: Seq<int>|
                #[trigger] is_chain(lists, k, prev, ps) && starts_below(ps, lim) && chain_cost(prev, used, ps) <= max
                    ==> c <= chain_cost(prev, used, ps)
        },
        None => forall|ps: Seq<int>|
            #[trigger] is_chain(lists, k, prev, ps) && starts_below(ps, lim) ==> chain_cost(prev, used, ps) > max,
    }
}

proof fn lemma_chain_cons(lists: Seq<Seq<int>>, k: int, prev: int, used: int, p: int, rest: Seq<int>)
    requires
        0 <= k < lists.len(),
        is_chain(lists, k + 1, p, rest),
        prev < p,
        lists[k].contains(p),
    ensures
        is_chain(lists, k, prev, seq![p] + rest),
        chain_cost(prev, used, seq![p] + rest) == chain_cost(p, used + p - prev - 1, rest),
        (seq![p] + rest)[0] == p,
        (seq![p] + rest).drop_first() == rest,
{
    let ps = seq![p] + rest;
    assert(ps.drop_first() =~= rest);
    assert forall|i: int| 0 <= i < ps.len() implies lists[k + i].contains(#[trigger] ps[i]) by {
        if i > 0 {
            assert(ps[i] == rest[i - 1]);
            assert(k + i == (k + 1) + (i - 1));
        }
    }
    assert forall|i: int| 0 <= i < ps.len() - 1 implies #[trigger] ps[i] < ps[i + 1] by {
        if i > 0 {
            assert(ps[i] == rest[i - 1]);
            assert(ps[i + 1] == rest[i]);
        } else if rest.len() > 0 {
            assert(ps[1] == rest[0]);
        }
    }
    if rest.len() > 0 {
        assert(ps.last() == rest.last());
    }
}

proof fn lemma_chain_uncons(lists: Seq<Seq<int>>, k: int, prev: int, used: int, ps: Seq<int>)
    requires
        is_chain(lists, k, prev, ps),
        ps.len() > 0,
    ensures
        is_chain(lists, k + 1, ps[0], ps.drop_first()),
        chain_cost(prev, used, ps) == chain_cost(ps[0], used + ps[0] - prev - 1, ps.drop_first()),
        chain_cost(prev, used, ps) >= used + ps[0] - prev - 1,
        ps == seq![ps[0]] + ps.drop_first(),
        lists[k].contains(ps[0]),
{
    let rest = ps.drop_first();
    assert(ps =~= seq![ps[0]] + rest);
    assert(lists[k + 0].contains(ps[0]));
    assert forall|i: int| 0 <= i < rest.len() implies lists[k + 1 + i].contains(#[trigger] rest[i]) by {
        assert(rest[i] == ps[i + 1]);
        assert(lists[k + (i + 1)].contains(ps[i + 1]));
        assert(k + 1 + i == k + (i + 1));
    }
    assert forall|i: int| 0 <= i < rest.len() - 1 implies #[trigger] rest[i] < rest[i + 1] by {
        assert(rest[i] == ps[i + 1]);
        assert(ps[i + 1] < ps[i + 2]);
    }
    if rest.len() > 0 {
        assert(rest[0] == ps[1]);
        assert(ps[0] < ps[1]);
        assert(rest.last() == ps.last());
        lemma_chain_cost_lower(lists, k + 1, ps[0], used + ps[0] - prev - 1, rest);
    }
}

/// A chain never lowers the slop.
proof fn lemma_chain_cost_lower(lists: Seq<Seq<int>>, k: int, prev: int, used: int, ps: Seq<int>)
    requires
        is_chain(lists, k, prev, ps),
    ensures
        chain_cost(prev, used, ps) >= used,
    decreases ps.len(),
{
    if ps.len() > 1 {
        let rest = ps.drop_first();
        assert forall|i: int| 0 <= i < rest.len() implies lists[k + 1 + i].contains(#[trigger] rest[i]) by {
            assert(rest[i] == ps[i + 1]);
            assert(lists[k + (i + 1)].contains(ps[i + 1]));
            assert(k + 1 + i == k + (i + 1));
        }
        assert forall|i: int| 0 <= i < rest.len() - 1 implies #[trigger] rest[i] < rest[i + 1] by {
            assert(rest[i] == ps[i + 1]);
            assert(ps[i + 1] < ps[i + 2]);
        }
        assert(ps[0] < ps[1]);
        assert(rest[0] == ps[1]);
        lemma_chain_cost_lower(lists, k + 1, ps[0], used, rest);
        assert(rest.last() == ps.last());
    }
}

/// Past the last list, the only chain is the empty one.
proof fn lemma_chain_end(lists: Seq<Seq<int>>, prev: int, ps: Seq<int>)
    ensures
        is_chain(lists, lists.len() as int, prev, ps) <==> ps.len() == 0,
{
}

/// A chain from list `k` starts at a position of list `k`; in a strictly
/// increasing list, one that starts below the next bound after `list[idx]`
/// starts below `list[idx]` or at it.
proof fn lemma_chain_start(lists: Seq<Seq<int>>, k: int, prev: int, ps: Seq<int>, idx: int)
    requires
        0 <= k < lists.len(),
        strictly_increasing(lists[k]),
        0 <= idx < lists[k].len(),
        is_chain(lists, k, prev, ps),
        starts_below(ps, if idx + 1 < lists[k].len() { Some(lists[k][idx + 1]) } else { None }),
    ensures
        ps.len() > 0,
        starts_below(ps, Some(lists[k][idx])) || ps[0] == lists[k][idx],
{
    let list = lists[k];
    assert(lists[k + 0].contains(ps[0]));
    let q = choose|q: int| 0 <= q < list.len() && list[q] == ps[0];
    if q > idx + 1 {
        assert(list[idx + 1] < list[q]);
    }
    if q < idx {
        assert(list[q] < list[idx]);
    }
}

/// Finds the least slop with which one position from each list from
/// `term_index` on can follow `previous_position` in increasing order,
/// given the slop `used_slop` spent so far, staying within `max_slop`.
#[verifier::spinoff_prover]
fn find_phrase_match_with_slop(
    position_lists: &Vec<&Vec<usize>>,
    term_index: usize,
    previous_position: usize,
    used_slop: usize,
    max_slop: usize,
) -> (r: Option<usize>)
    requires
        forall|i: int| 0 <= i < position_lists@.len() ==> strictly_increasing(usizes_view((#[trigger] position_lists@[i])@)),
        term_index <= position_lists@.len(),
        used_slop <= max_slop,
    ensures
        least_cost_below(lists_view(position_lists@), term_index as int, previous_position as int, used_slop as int, max_slop as int, None, r),
    decreases position_lists@.len() - term_index,
{
    let ghost lists = lists_view(position_lists@);
    let ghost k = term_index as int;
    let ghost prev = previous_position as int;
    let ghost used = used_slop as int;
    let ghost max = max_slop as int;
    let n_lists = position_lists.len();
    if term_index == n_lists {
        proof {
            let e = Seq::<int>::empty();
            assert(is_chain(lists, k, prev, e));
            assert forall|ps: Seq<int>| #[trigger] is_chain(lists, k, prev, ps) && starts_below(ps, None)
                && chain_cost(prev, used, ps) <= max implies used_slop <= chain_cost(prev, used, ps) by {
                lemma_chain_end(lists, prev, ps);
            }
        }
        return Some(used_slop);
    }
    let positions = position_lists[term_index];
    let ghost list = usizes_view(positions@);
    proof {
        assert(list == lists[k]);
        if list.len() > 0 {
            assert forall|ps: Seq<int>| #[trigger] is_chain(lists, k, prev, ps) && starts_below(ps, Some(list[0]))
                implies chain_cost(prev, used, ps) > max by {
                assert(lists[k + 0].contains(ps[0]));
                let q = choose|q: int| 0 <= q < list.len() && list[q] == ps[0];
                if q > 0 {
                    assert(list[0] < list[q]);
                }
            }
        } else {
            assert forall|ps: Seq<int>| #[trigger] is_chain(lists, k, prev, ps) && starts_below(ps, None)
                implies chain_cost(prev, used, ps) > max by {
                assert(lists[k + 0].contains(ps[0]));
            }
        }
    }
    let mut best: Option<usize> = None;
    let mut idx: usize = 0;
    while idx < positions.len()
        invariant_except_break
            k == term_index,
            prev == previous_position,
            used == used_slop,
            max == max_slop,
            lists == lists_view(position_lists@),
            n_lists == lists.len(),
            forall|i: int| 0 <= i < position_lists@.len() ==> strictly_increasing(usizes_view((#[trigger] position_lists@[i])@)),
            term_index < lists.len(),
            used_slop <= max_slop,
            positions == position_lists@[term_index as int],
            idx <= positions@.len(),
            list == usizes_view(positions@),
            list == lists[k],
            strictly_increasing(list),
            least_cost_below(lists, k, prev, used, max, if idx < list.len() { Some(list[idx as int]) } else { None }, best),
            best matches Some(c) ==> c >= used,
        ensures
            least_cost_below(lists, k, prev, used, max, None, best),
        decreases positions@.len() - idx,
    {
        let position = positions[idx];
        let ghost nl: Option<int> = if idx + 1 < list.len() { Some(list[idx + 1]) } else { None };
        if position <= previous_position {
            proof {
                // no chain starts at or before `prev`
                assert forall|ps: Seq<int>| #[trigger] is_chain(lists, k, prev, ps) && starts_below(ps, nl)
                    implies starts_below(ps, Some(list[idx as int])) by {
                    lemma_chain_start(lists, k, prev, ps, idx as int);
                }
            }
            idx = idx + 1;
            continue;
        }
        let gap = position - previous_position - 1;
        if gap > max_slop - used_slop {
            proof {
                assert forall|ps: Seq<int>| #[trigger] is_chain(lists, k, prev, ps) && starts_below(ps, None)
                    && !starts_below(ps, Some(list[idx as int])) implies chain_cost(prev, used, ps) > max by {
                    lemma_chain_uncons(lists, k, prev, used, ps);
                }
            }
            break;
        }
        let next_slop = used_slop + gap;
        let found = find_phrase_match_with_slop(position_lists, term_index + 1, position, next_slop, max_slop);
        let ghost old_best = best;
        let ghost p = position as int;
        if let Some(match_slop) = found {
            best = match best {
                Some(current) => Some(if match_slop < current { match_slop } else { current }),
                None => Some(match_slop),
            };
            proof {
                assert(list.contains(p)) by {
                    assert(list[idx as int] == p);
                }
                let rest = choose|rest: Seq<int>| #[trigger] is_chain(lists, k + 1, p, rest) && starts_below(rest, None)
                    && chain_cost(p, next_slop as int, rest) == match_slop;
                lemma_chain_cons(lists, k, prev, used, p, rest);
                lemma_chain_cost_lower(lists, k + 1, p, next_slop as int, rest);
                lemma_merge_step(lists, k, prev, used, max, idx as int, old_best, found, best);
            }
            if match_slop == used_slop {
                proof {
                    assert forall|ps: Seq<int>| #[trigger] is_chain(lists, k, prev, ps) && starts_below(ps, None)
                        && chain_cost(prev, used, ps) <= max implies used_slop <= chain_cost(prev, used, ps) by {
                        lemma_chain_cost_lower(lists, k, prev, used, ps);
                    }
                    let rest = choose|rest: Seq<int>| #[trigger] is_chain(lists, k + 1, p, rest) && starts_below(rest, None)
                        && chain_cost(p, next_slop as int, rest) == match_slop;
                    lemma_chain_cons(lists, k, prev, used, p, rest);
                    assert(is_chain(lists, k, prev, seq![p] + rest));
                }
                break;
            }
        } else {
            proof {
                lemma_merge_step(lists, k, prev, used, max, idx as int, old_best, found, best);
            }
        }
        idx = idx + 1;
    }
    best
}

/// Merging the chains that start at `lists[k][idx]` into the least cost of
/// the chains that start before it.
#[verifier::spinoff_prover]
#[verifier::rlimit(40)]
proof fn lemma_merge_step(
    lists: Seq<Seq<int>>,
    k: int,
    prev: int,
    used: int,
    max: int,
    idx: int,
    old_best: Option<usize>,
    found: Option<usize>,
    best: Option<usize>,
)
    requires
        0 <= k < lists.len(),
        0 <= idx < lists[k].len(),
        strictly_increasing(lists[k]),
        prev < lists[k][idx],
        used + (lists[k][idx] - prev - 1) <= max,
        least_cost_below(lists, k, prev, used, max, Some(lists[k][idx]), old_best),
        least_cost_below(lists, k + 1, lists[k][idx], used + (lists[k][idx] - prev - 1), max, None, found),
        best == match found {
            Some(m) => match old_best {
                Some(c) => Some(if m < c { m } else { c }),
                None => Some(m),
            },
            None => old_best,
        },
    ensures
        least_cost_below(lists, k, prev, used, max, if idx + 1 < lists[k].len() { Some(lists[k][idx + 1]) } else { None }, best),
{
    let list = lists[k];
    let p = list[idx];
    let next = used + (p - prev - 1);
    let nl: Option<int> = if idx + 1 < list.len() { Some(list[idx + 1]) } else { None };
    assert forall|ps: Seq<int>| #[trigger] is_chain(lists, k, prev, ps) && starts_below(ps, nl)
        implies starts_below(ps, Some(p)) || ps[0] == p by {
        lemma_chain_start(lists, k, prev, ps, idx);
    }
    // Those that start at `p` are `p` followed by a chain from `k + 1`.
    assert forall|ps: Seq<int>| #[trigger] is_chain(lists, k, prev, ps) && ps.len() > 0 && ps[0] == p
        implies is_chain(lists, k + 1, p, ps.drop_first()) && chain_cost(prev, used, ps) == chain_cost(p, next, ps.drop_first())
            && starts_below(ps.drop_first(), None) by {
        lemma_chain_uncons(lists, k, prev, used, ps);
    }
    assert(list.contains(p)) by {
        assert(list[idx] == p);
    }
    match best {
        Some(c) => {
            if found is Some && (old_best is None || found->0 < old_best->0) {
                let m = found->0;
                let rest = choose|rest: Seq<int>| #[trigger] is_chain(lists, k + 1, p, rest) && starts_below(rest, None)
                    && chain_cost(p, next, rest) == m;
                lemma_chain_cons(lists, k, prev, used, p, rest);
                assert(starts_below(seq![p] + rest, nl));
            } else {
                let ps = choose|ps: Seq<int>| #[trigger] is_chain(lists, k, prev, ps) && starts_below(ps, Some(p))
                    && chain_cost(prev, used, ps) == c;
                if ps.len() > 0 && idx + 1 < list.len() {
                    assert(list[idx] < list[idx + 1]);
                }
                assert(starts_below(ps, nl));
            }
            assert forall|ps: Seq<int>| #[trigger] is_chain(lists, k, prev, ps) && starts_below(ps, nl)
                && chain_cost(prev, used, ps) <= max implies c <= chain_cost(prev, used, ps) by {
                if !starts_below(ps, Some(p)) {
                    assert(ps[0] == p);
                }
            }
        },
        None => {
            assert forall|ps: Seq<int>| #[trigger] is_chain(lists, k, prev, ps) && starts_below(ps, nl)
                implies chain_cost(prev, used, ps) > max by {
                if !starts_below(ps, Some(p)) {
                    assert(ps[0] == p);
                }
            }
        },
    }
}

/// `r` is the least slop within `max` of the windows that start below
/// `lim`; none when no such window is within `max`.
pub open spec fn least_window_below(
    doc: Seq<Seq<char>>,
    ts: Seq<Seq<char>>,
    max: int,
    lim: int,
    r: Option<usize>,
) -> bool {
    match r {
        Some(c) => {
            &&& exists|js: Seq<int>|
                #[trigger] is_phrase_window(doc, ts, js) && js[0] < lim && window_slop(js) == c
            &&& c <= max
            &&& forall|js: Seq<int>|
                #[trigger] is_phrase_window(doc, ts, js) && js[0] < lim && window_slop(js) <= max
                    ==> c <= window_slop(js)
        },
        None => forall|js: Seq<int>|
            #[trigger] is_phrase_window(doc, ts, js) && js[0] < lim ==> window_slop(js) > max,
    }
}

/// The slop of a document's match of a phrase, as an optional count.
pub open spec fn opt_nat(r: Option<usize>) -> Option<nat> {
    match r {
        Some(x) => Some(x as nat),
        None => None,
    }
}

/// The position list of each phrase term holds exactly its occurrences in
/// the document, in increasing order.
proof fn lemma_phrase_lists(doc: Seq<Seq<char>>, ts: Seq<Seq<char>>)
    ensures
        phrase_position_lists(doc, ts).len() == ts.len(),
        forall|i: int, j: int|
            0 <= i < ts.len() ==> (#[trigger] phrase_position_lists(doc, ts)[i].contains(j) <==> (0 <= j < doc.len()
                && doc[j] == ts[i])),
        forall|i: int| 0 <= i < ts.len() ==> strictly_increasing(#[trigger] phrase_position_lists(doc, ts)[i]),
{
    let lists = phrase_position_lists(doc, ts);
    assert forall|i: int, j: int| 0 <= i < ts.len() implies (#[trigger] lists[i].contains(j) <==> (0 <= j < doc.len()
        && doc[j] == ts[i])) by {
        lemma_positions_of(doc, ts[i]);
        if lists[i].contains(j) {
            let q = choose|q: int| 0 <= q < lists[i].len() && lists[i][q] == j;
            assert(positions_of(doc, ts[i])[q] == j);
        }
    }
    assert forall|i: int| 0 <= i < ts.len() implies strictly_increasing(#[trigger] lists[i]) by {
        lemma_positions_of(doc, ts[i]);
    }
}

proof fn lemma_window_to_chain(doc: Seq<Seq<char>>, ts: Seq<Seq<char>>, js: Seq<int>)
    requires
        is_phrase_window(doc, ts, js),
    ensures
        is_chain(phrase_position_lists(doc, ts), 1, js[0], js.drop_first()),
        chain_cost(js[0], 0, js.drop_first()) == window_slop(js),
        doc[js[0]] == ts[0],
        0 <= js[0] < doc.len(),
        window_slop(js) >= 0,
{
    let lists = phrase_position_lists(doc, ts);
    lemma_phrase_lists(doc, ts);
    let rest = js.drop_first();
    assert forall|i: int| 0 <= i < rest.len() implies lists[1 + i].contains(#[trigger] rest[i]) by {
        assert(rest[i] == js[i + 1]);
        assert(doc[js[i + 1]] == ts[i + 1]);
        assert(lists[1 + i].contains(js[i + 1]));
    }
    assert forall|i: int| 0 <= i < rest.len() - 1 implies #[trigger] rest[i] < rest[i + 1] by {
        assert(rest[i] == js[i + 1]);
        assert(js[i + 1] < js[i + 2]);
    }
    if rest.len() > 0 {
        assert(rest[0] == js[1]);
        assert(js[0] < js[1]);
        assert(rest.last() == js.last());
        lemma_chain_cost_lower(lists, 1, js[0], 0, rest);
    }
}

proof fn lemma_chain_to_window(doc: Seq<Seq<char>>, ts: Seq<Seq<char>>, st: int, rest: Seq<int>)
    requires
        ts.len() > 0,
        0 <= st < doc.len(),
        doc[st] == ts[0],
        is_chain(phrase_position_lists(doc, ts), 1, st, rest),
    ensures
        is_phrase_window(doc, ts, seq![st] + rest),
        window_slop(seq![st] + rest) == chain_cost(st, 0, rest),
        (seq![st] + rest)[0] == st,
{
    let lists = phrase_position_lists(doc, ts);
    lemma_phrase_lists(doc, ts);
    let js = seq![st] + rest;
    assert forall|i: int| 0 <= i < js.len() implies 0 <= #[trigger] js[i] < doc.len() && doc[js[i]] == ts[i] by {
        if i > 0 {
            assert(js[i] == rest[i - 1]);
            assert(lists[1 + (i - 1)].contains(rest[i - 1]));
        }
    }
    assert forall|i: int| 0 <= i < js.len() - 1 implies #[trigger] js[i] < js[i + 1] by {
        if i > 0 {
            assert(js[i] == rest[i - 1]);
            assert(js[i + 1] == rest[i]);
        } else {
            assert(js[1] == rest[0]);
        }
    }
    if rest.len() > 0 {
        assert(js.last() == rest.last());
    }
}

proof fn lemma_least_window_is_phrase_slop(doc: Seq<Seq<char>>, ts: Seq<Seq<char>>, max: nat, r: Option<usize>)
    requires
        least_window_below(doc, ts, max as int, doc.len() as int, r),
    ensures
        opt_nat(r) == phrase_slop(doc, ts, max),
{
    match r {
        Some(c) => {
            let js = choose|js: Seq<int>| #[trigger] is_phrase_window(doc, ts, js) && js[0] < doc.len() && window_slop(js) == c;
            assert(is_least_slop(doc, ts, max, c as nat)) by {
                assert forall|js2: Seq<int>| #[trigger] is_phrase_window(doc, ts, js2) && window_slop(js2) <= max
                    implies c <= window_slop(js2) by {
                    lemma_window_to_chain(doc, ts, js2);
                }
            }
            let s = choose|s: nat| is_least_slop(doc, ts, max, s);
            let js3 = choose|js3: Seq<int>| #[trigger] is_phrase_window(doc, ts, js3) && window_slop(js3) == s && s <= max;
            lemma_window_to_chain(doc, ts, js3);
            assert(s <= window_slop(js));
            assert(c <= window_slop(js3));
        },
        None => {
            assert forall|js: Seq<int>| #[trigger] is_phrase_window(doc, ts, js) implies window_slop(js) > max by {
                lemma_window_to_chain(doc, ts, js);
            }
        },
    }
}

proof fn lemma_window_merge_step(
    doc: Seq<Seq<char>>,
    ts: Seq<Seq<char>>,
    max: int,
    list: Seq<int>,
    idx: int,
    old_best: Option<usize>,
    found: Option<usize>,
    best: Option<usize>,
)
    requires
        ts.len() > 1,
        0 <= idx < list.len(),
        strictly_increasing(list),
        forall|i: int| 0 <= i < list.len() ==> 0 <= #[trigger] list[i] < doc.len() && doc[list[i]] == ts[0],
        forall|j: int| 0 <= j < doc.len() && doc[j] == ts[0] ==> #[trigger] list.contains(j),
        least_window_below(doc, ts, max, list[idx], old_best),
        least_cost_below(phrase_position_lists(doc, ts), 1, list[idx], 0, max, None, found),
        best == match found {
            Some(m) => match old_best {
                Some(c) => Some(if m < c { m } else { c }),
                None => Some(m),
            },
            None => old_best,
        },
    ensures
        least_window_below(doc, ts, max, if idx + 1 < list.len() { list[idx + 1] } else { doc.len() as int }, best),
{
    let lists = phrase_position_lists(doc, ts);
    let st = list[idx];
    let lim = doc.len() as int;
    let nl = if idx + 1 < list.len() { list[idx + 1] } else { lim };
    assert forall|js: Seq<int>| #[trigger] is_phrase_window(doc, ts, js) && js[0] < nl
        implies js[0] < st || js[0] == st by {
        lemma_window_to_chain(doc, ts, js);
        assert(list.contains(js[0]));
        let q = choose|q: int| 0 <= q < list.len() && list[q] == js[0];
        if q > idx + 1 {
            assert(list[idx + 1] < list[q]);
        }
        if q < idx {
            assert(list[q] < list[idx]);
        }
    }
    match best {
        Some(c) => {
            if found is Some && (old_best is None || found->0 < old_best->0) {
                let m = found->0;
                let rest = choose|rest: Seq<int>| #[trigger] is_chain(lists, 1, st, rest) && starts_below(rest, None)
                    && chain_cost(st, 0, rest) == m;
                lemma_chain_to_window(doc, ts, st, rest);
            } else {
                let js = choose|js: Seq<int>| #[trigger] is_phrase_window(doc, ts, js) && js[0] < st && window_slop(js) == c;
                assert(js[0] < nl);
            }
            assert forall|js: Seq<int>| #[trigger] is_phrase_window(doc, ts, js) && js[0] < nl
                && window_slop(js) <= max implies c <= window_slop(js) by {
                if js[0] == st {
                    lemma_window_to_chain(doc, ts, js);
                    assert(is_chain(lists, 1, st, js.drop_first()) && starts_below(js.drop_first(), None));
                }
            }
        },
        None => {
            assert forall|js: Seq<int>| #[trigger] is_phrase_window(doc, ts, js) && js[0] < nl
                implies window_slop(js) > max by {
                if js[0] == st {
                    lemma_window_to_chain(doc, ts, js);
                    assert(is_chain(lists, 1, st, js.drop_first()) && starts_below(js.drop_first(), None));
                }
            }
        },
    }
}

impl SearchEngine {
    /// The least slop with which the document matches the phrase, if it
    /// matches within the phrase's slop.
    pub(crate) fn phrase_match_slop(&self, doc_id: usize, phrase: &crate::query::PhraseQuery) -> (r: Option<usize>)
        requires
            self.wf(),
        ensures
            opt_nat(r) == if doc_id < self.doc_terms().len() {
                phrase_slop(self.doc_terms()[doc_id as int], phrase@.terms, phrase@.slop)
            } else {
                None
            },
    {
        if doc_id >= self.documents.len() {
            return None;
        }
        let ghost doc = self.doc_terms@[doc_id as int];
        let ghost ts = phrase@.terms;
        let ghost max = phrase.slop as int;
        let n_terms = phrase.terms.len();
        if n_terms == 0 {
            return None;
        }
        if n_terms == 1 {
            let found = self.contains_normalized_term(doc_id, phrase.terms[0].as_str());
            proof {
                assert(ts[0] == phrase.terms@[0]@);
                if found {
                    let j = choose|j: int| 0 <= j < doc.len() && doc[j] == ts[0];
                    let js = seq![j];
                    assert(is_phrase_window(doc, ts, js));
                    assert(window_slop(js) == 0);
                    assert(least_window_below(doc, ts, max, doc.len() as int, Some(0usize)));
                    lemma_least_window_is_phrase_slop(doc, ts, phrase.slop as nat, Some(0usize));
                } else {
                    assert forall|js: Seq<int>| #[trigger] is_phrase_window(doc, ts, js) && js[0] < doc.len()
                        implies window_slop(js) > max by {
                        assert(doc[js[0]] == ts[0]);
                    }
                    lemma_least_window_is_phrase_slop(doc, ts, phrase.slop as nat, None);
                }
            }
            return if found {
                Some(0)
            } else {
                None
            };
        }
        let mut position_lists: Vec<&Vec<usize>> = Vec::new();
        for i in 0..n_terms
            invariant
                n_terms == phrase.terms@.len(),
                ts == phrase@.terms,
                doc == self.doc_terms@[doc_id as int],
                self.wf(),
                doc_id < self.doc_terms@.len(),
                max == phrase.slop,
                position_lists@.len() == i,
                forall|m: int| 0 <= m < i ==> usizes_view((#[trigger] position_lists@[m])@) == positions_of(doc, ts[m]),
        {
            assert(ts[i as int] == phrase.terms@[i as int]@);
            match self.positions_for_term_in_doc(phrase.terms[i].as_str(), doc_id) {
                Some(positions) => position_lists.push(positions),
                None => {
                    proof {
                        assert forall|js: Seq<int>| #[trigger] is_phrase_window(doc, ts, js) && js[0] < doc.len()
                            implies window_slop(js) > max by {
                            assert(doc[js[i as int]] == ts[i as int]);
                            assert(doc.contains(ts[i as int]));
                        }
                        lemma_least_window_is_phrase_slop(doc, ts, phrase.slop as nat, None);
                    }
                    return None;
                },
            }
        }
        let first = position_lists[0];
        let ghost list = usizes_view(first@);
        proof {
            lemma_positions_of(doc, ts[0]);
            assert(list == positions_of(doc, ts[0]));
        }
        let mut best: Option<usize> = None;
        let mut idx: usize = 0;
        proof {
            assert forall|js: Seq<int>| #[trigger] is_phrase_window(doc, ts, js) && js[0] < (if 0 < list.len() { list[0] } else { doc.len() as int })
                implies window_slop(js) > max by {
                lemma_window_to_chain(doc, ts, js);
                assert(list.contains(js[0]));
                let q = choose|q: int| 0 <= q < list.len() && list[q] == js[0];
                if q > 0 {
                    assert(list[0] < list[q]);
                }
            }
        }
        while idx < first.len()
            invariant_except_break
                n_terms == ts.len(),
                n_terms > 1,
                ts == phrase@.terms,
                doc == self.doc_terms@[doc_id as int],
                max == phrase.slop,
                position_lists@.len() == ts.len(),
                forall|m: int| 0 <= m < ts.len() ==> usizes_view((#[trigger] position_lists@[m])@) == positions_of(doc, ts[m]),
                first == position_lists@[0],
                idx <= first@.len(),
                list == usizes_view(first@),
                list == positions_of(doc, ts[0]),
                strictly_increasing(list),
                forall|i: int| 0 <= i < list.len() ==> 0 <= #[trigger] list[i] < doc.len() && doc[list[i]] == ts[0],
                forall|j: int| 0 <= j < doc.len() && doc[j] == ts[0] ==> #[trigger] list.contains(j),
                least_window_below(doc, ts, max, if idx < list.len() { list[idx as int] } else { doc.len() as int }, best),
            ensures
                least_window_below(doc, ts, max, doc.len() as int, best),
            decreases first@.len() - idx,
        {
            let start = first[idx];
            proof {
                lemma_phrase_lists(doc, ts);
                assert(lists_view(position_lists@) =~= phrase_position_lists(doc, ts));
                assert forall|i: int| 0 <= i < position_lists@.len() implies strictly_increasing(
                    usizes_view((#[trigger] position_lists@[i])@),
                ) by {
                    assert(phrase_position_lists(doc, ts)[i] == usizes_view(position_lists@[i]@));
                }
            }
            let found = find_phrase_match_with_slop(&position_lists, 1, start, 0, phrase.slop);
            let ghost old_best = best;
            if let Some(used_slop) = found {
                best = match best {
                    Some(current) => Some(if used_slop < current { used_slop } else { current }),
                    None => Some(used_slop),
                };
                proof {
                    lemma_window_merge_step(doc, ts, max, list, idx as int, old_best, found, best);
                }
                if used_slop == 0 {
                    proof {
                        let rest = choose|rest: Seq<int>| #[trigger] is_chain(phrase_position_lists(doc, ts), 1, start as int, rest)
                            && starts_below(rest, None) && chain_cost(start as int, 0, rest) == 0;
                        lemma_chain_to_window(doc, ts, start as int, rest);
                        assert forall|js: Seq<int>| #[trigger] is_phrase_window(doc, ts, js) && js[0] < doc.len()
                            && window_slop(js) <= max implies 0 <= window_slop(js) by {
                            lemma_window_to_chain(doc, ts, js);
                        }
                        assert(best == Some(0usize));
                    }
                    break;
                }
            } else {
                proof {
                    lemma_window_merge_step(doc, ts, max, list, idx as int, old_best, found, best);
                }
            }
            idx = idx + 1;
        }
        proof {
            lemma_least_window_is_phrase_slop(doc, ts, phrase.slop as nat, best);
        }
        best
    }

    /// Whether the document matches the phrase within its slop.
    pub(crate) fn doc_has_phrase(&self, doc_id: usize, phrase: &crate::query::PhraseQuery) -> (b: bool)
        requires
            self.wf(),
        ensures
            b == (doc_id < self.doc_terms().len() && phrase_slop(
                self.doc_terms()[doc_id as int],
                phrase@.terms,
                phrase@.slop,
            ) is Some),
    {
        self.phrase_match_slop(doc_id, phrase).is_some()
    }
}

/// How often a term occurs in one document, and in how many documents.
#[derive(Debug, Clone, Copy, PartialEq, Eq)]
pub struct TermHit {
    pub term_frequency: usize,
    pub document_frequency: usize,
}

impl SearchEngine {
    /// The occurrences of a (normalized) term in one document and its
    /// document frequency, when the document contains it.
    pub(crate) fn term_hit(&self, term: &str, doc_id: usize) -> (r: Option<TermHit>)
        requires
            self.wf(),
        ensures
            match r {
                Some(h) => {
                    &&& doc_id < self.doc_terms().len()
                    &&& self.doc_terms()[doc_id as int].contains(term@)
                    &&& h.term_frequency == positions_of(self.doc_terms()[doc_id as int], term@).len()
                    &&& h.document_frequency == docs_containing(self.doc_terms(), term@).len()
                },
                None => !(doc_id < self.doc_terms().len() && self.doc_terms()[doc_id as int].contains(
                    term@,
                )),
            },
    {
        let positions = match self.positions_for_term_in_doc(term, doc_id) {
            Some(p) => p,
            None => return None,
        };
        let term_frequency = positions.len();
        let i = match self.entry_index(term) {
            Some(i) => i,
            None => {
                proof {
                    assert(in_vocabulary(self.doc_terms@, term@));
                }
                return None;
            },
        };
        assert(entry_ok(self.entries@[i as int], self.doc_terms@));
        assert(posting_docs(self.entries@[i as int].postings@).len() == self.entries@[i as int].postings@.len());
        Some(TermHit { term_frequency, document_frequency: self.entries[i].postings.len() })
    }
}

} // verus!
