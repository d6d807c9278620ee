//! Matching documents against a parsed query.
//!
//! A document is a candidate when it contains one of the query's scoring
//! terms (optional and required terms) or matches one of its scoring phrases
//! (plain and required phrases). A candidate is returned when it contains
//! every required term, no excluded term, matches every required phrase and
//! no excluded phrase, and its path starts with the requested prefix. Each
//! returned document comes with what a ranking needs: the frequencies of the
//! terms it contains, the slop of the phrases it matches, and the sorted
//! labels of what matched.
use vstd::prelude::*;

use crate::document::DocumentView;
use crate::index::{
    docs_containing, phrase_slop, positions_of, terms_strictly_sorted, SearchEngine, TermHit,
};
use crate::order::{compare_terms, lemma_term_lt_strict_total_order, term_lt, TermOrder};
use crate::query::{strings_view, ParsedQuery, ParsedQueryView, PhraseQuery, PhraseView};
use crate::text::{chars_of, push_char};

verus! {

/// The terms that contribute to the score: optional, then required ones.
pub open spec fn scoring_terms(q: ParsedQueryView) -> Seq<Seq<char>> {
    q.optional_terms + q.required_terms
}

/// The phrases that contribute to the score: plain, then required ones.
pub open spec fn scoring_phrases(q: ParsedQueryView) -> Seq<PhraseView> {
    q.phrases + q.required_phrases
}

/// Whether a document (its token terms) matches a phrase within its slop.
pub open spec fn phrase_found(doc: Seq<Seq<char>>, p: PhraseView) -> bool {
    phrase_slop(doc, p.terms, p.slop) is Some
}

/// A document that some scoring term or phrase matches.
pub open spec fn is_candidate(doc: Seq<Seq<char>>, q: ParsedQueryView) -> bool {
    ||| exists|i: int| 0 <= i < scoring_terms(q).len() && doc.contains(#[trigger] scoring_terms(q)[i])
    ||| exists|i: int| 0 <= i < scoring_phrases(q).len() && phrase_found(doc, #[trigger] scoring_phrases(q)[i])
}

/// A document with every required term and phrase and no excluded one.
pub open spec fn passes_filters(doc: Seq<Seq<char>>, q: ParsedQueryView) -> bool {
    &&& forall|i: int| 0 <= i < q.required_terms.len() ==> doc.contains(#[trigger] q.required_terms[i])
    &&& forall|i: int| 0 <= i < q.excluded_terms.len() ==> !doc.contains(#[trigger] q.excluded_terms[i])
    &&& forall|i: int| 0 <= i < q.required_phrases.len() ==> phrase_found(doc, #[trigger] q.required_phrases[i])
    &&& forall|i: int| 0 <= i < q.excluded_phrases.len() ==> !phrase_found(doc, #[trigger] q.excluded_phrases[i])
}

/// std's `str::starts_with` with a string pattern.
pub open spec fn starts_with(s: Seq<char>, prefix: Seq<char>) -> bool {
    prefix.len() <= s.len() && s.take(prefix.len() as int) == prefix
}

/// A path that the optional prefix filter lets through.
pub open spec fn path_allowed(path: Seq<char>, prefix: Option<Seq<char>>) -> bool {
    match prefix {
        Some(p) => starts_with(path, p),
        None => true,
    }
}

/// Whether document `d` is returned for the query.
pub open spec fn document_matches(
    model: Seq<Seq<Seq<char>>>,
    docs: Seq<DocumentView>,
    d: int,
    q: ParsedQueryView,
    prefix: Option<Seq<char>>,
) -> bool {
    &&& is_candidate(model[d], q)
    &&& passes_filters(model[d], q)
    &&& path_allowed(docs[d].path, prefix)
}

/// The documents below `n` that are returned for the query, in order.
pub open spec fn matching_docs(
    model: Seq<Seq<Seq<char>>>,
    docs: Seq<DocumentView>,
    q: ParsedQueryView,
    prefix: Option<Seq<char>>,
    n: int,
) -> Seq<int>
    decreases n,
{
    if n <= 0 {
        Seq::empty()
    } else {
        let prev = matching_docs(model, docs, q, prefix, n - 1);
        if document_matches(model, docs, n - 1, q, prefix) {
            prev.push(n - 1)
        } else {
            prev
        }
    }
}

pub struct TermHitView {
    pub term_frequency: nat,
    pub document_frequency: nat,
}

impl View for TermHit {
    type V = TermHitView;

    open spec fn view(&self) -> TermHitView {
        TermHitView {
            term_frequency: self.term_frequency as nat,
            document_frequency: self.document_frequency as nat,
        }
    }
}

/// How closely a document matched one phrase.
#[derive(Debug, Clone, Copy, PartialEq, Eq)]
pub struct PhraseHit {
    pub term_count: usize,
    pub used_slop: usize,
}

pub struct PhraseHitView {
    pub term_count: nat,
    pub used_slop: nat,
}

impl View for PhraseHit {
    type V = PhraseHitView;

    open spec fn view(&self) -> PhraseHitView {
        PhraseHitView { term_count: self.term_count as nat, used_slop: self.used_slop as nat }
    }
}

/// For each term of `ts` that document `d` contains, in order: how often
/// it occurs there and in how many documents.
pub open spec fn term_hits(model: Seq<Seq<Seq<char>>>, d: int, ts: Seq<Seq<char>>) -> Seq<TermHitView>
    decreases ts.len(),
{
    if ts.len() == 0 {
        Seq::empty()
    } else {
        let prev = term_hits(model, d, ts.drop_last());
        let t = ts.last();
        if model[d].contains(t) {
            prev.push(
                TermHitView {
                    term_frequency: positions_of(model[d], t).len(),
                    document_frequency: docs_containing(model, t).len(),
                },
            )
        } else {
            prev
        }
    }
}

/// For each phrase of `ps` that the document matches, in order: its number
/// of terms and the least slop of the match.
pub open spec fn phrase_hits(doc: Seq<Seq<char>>, ps: Seq<PhraseView>) -> Seq<PhraseHitView>
    decreases ps.len(),
{
    if ps.len() == 0 {
        Seq::empty()
    } else {
        let prev = phrase_hits(doc, ps.drop_last());
        let p = ps.last();
        match phrase_slop(doc, p.terms, p.slop) {
            Some(s) => prev.push(PhraseHitView { term_count: p.terms.len(), used_slop: s }),
            None => prev,
        }
    }
}

/// Terms joined with single spaces.
pub open spec fn join_terms(ts: Seq<Seq<char>>) -> Seq<char>
    decreases ts.len(),
{
    if ts.len() == 0 {
        Seq::empty()
    } else if ts.len() == 1 {
        ts[0]
    } else {
        join_terms(ts.drop_last()) + seq![' '] + ts.last()
    }
}

/// What a document reports as matched: each scoring term it contains, and
/// the text of each scoring phrase it matches.
pub open spec fn is_matched_label(doc: Seq<Seq<char>>, q: ParsedQueryView, x: Seq<char>) -> bool {
    ||| exists|i: int| 0 <= i < scoring_terms(q).len() && #[trigger] scoring_terms(q)[i] == x && doc.contains(x)
    ||| exists|i: int|
        0 <= i < scoring_phrases(q).len() && join_terms((#[trigger] scoring_phrases(q)[i]).terms) == x
            && phrase_found(doc, scoring_phrases(q)[i])
}

/// A document returned for a query, with what ranking it needs.
#[derive(Debug, Clone, PartialEq, Eq)]
pub struct DocumentMatch {
    pub doc_id: usize,
    pub path: String,
    pub length: usize,
    pub term_hits: Vec<TermHit>,
    pub phrase_hits: Vec<PhraseHit>,
    pub matched_terms: Vec<String>,
}

/// What the engine returns for document `d`.
pub open spec fn is_match_of(
    m: DocumentMatch,
    model: Seq<Seq<Seq<char>>>,
    docs: Seq<DocumentView>,
    d: int,
    q: ParsedQueryView,
) -> bool {
    &&& m.doc_id == d
    &&& m.path@ == docs[d].path
    &&& m.length == docs[d].length
    &&& m.term_hits@.map_values(|h: TermHit| h@) == term_hits(model, d, scoring_terms(q))
    &&& m.phrase_hits@.map_values(|h: PhraseHit| h@) == phrase_hits(model[d], scoring_phrases(q))
    &&& terms_strictly_sorted(strings_view(m.matched_terms@))
    &&& forall|x: Seq<char>| #[trigger] strings_view(m.matched_terms@).contains(x) <==> is_matched_label(model[d], q, x)
}

/// Whether `x` is one of the terms of `ts` that the document contains.
pub open spec fn is_term_label(doc: Seq<Seq<char>>, ts: Seq<Seq<char>>, x: Seq<char>) -> bool {
    exists|i: int| 0 <= i < ts.len() && #[trigger] ts[i] == x && doc.contains(x)
}

/// Whether `x` is the text of one of the phrases of `ps` that the document
/// matches.
pub open spec fn is_phrase_label(doc: Seq<Seq<char>>, ps: Seq<PhraseView>, x: Seq<char>) -> bool {
    exists|i: int| 0 <= i < ps.len() && join_terms((#[trigger] ps[i]).terms) == x && phrase_found(doc, ps[i])
}

/// Adds `label` to a strictly sorted list of labels, unless it is there.
fn insert_label(labels: &mut Vec<String>, label: String)
    requires
        terms_strictly_sorted(strings_view(old(labels)@)),
    ensures
        terms_strictly_sorted(strings_view(final(labels)@)),
        forall|x: Seq<char>|
            #[trigger] strings_view(final(labels)@).contains(x) <==> strings_view(old(labels)@).contains(x)
                || x == label@,
{
    let ghost old_v = strings_view(labels@);
    proof {
        lemma_term_lt_strict_total_order();
    }
    let mut lo: usize = 0;
    let mut hi: usize = labels.len();
    while lo < hi
        invariant
            lo <= hi <= labels@.len(),
            old_v == strings_view(labels@),
            terms_strictly_sorted(old_v),
            forall|j: int| 0 <= j < lo ==> term_lt(#[trigger] old_v[j], label@),
            forall|j: int| hi <= j < old_v.len() ==> term_lt(label@, #[trigger] old_v[j]),
        decreases hi - lo,
    {
        let mid = lo + (hi - lo) / 2;
        proof {
            lemma_term_lt_strict_total_order();
        }
        let mid_label = labels[mid].as_str();
        assert(mid_label@ == old_v[mid as int]);
        match compare_terms(mid_label, label.as_str()) {
            TermOrder::Before => {
                assert forall|j: int| 0 <= j < mid + 1 implies term_lt(#[trigger] old_v[j], label@) by {
                    if j < mid {
                        assert(term_lt(old_v[j], old_v[mid as int]));
                    }
                }
                lo = mid + 1;
            },
            TermOrder::Same => {
                proof {
                    assert forall|x: Seq<char>| #[trigger] old_v.contains(x) <==> old_v.contains(x) || x == label@ by {
                        if x == label@ {
                            assert(old_v[mid as int] == x);
                        }
                    }
                }
                return;
            },
            TermOrder::After => {
                assert forall|j: int| mid <= j < old_v.len() implies term_lt(label@, #[trigger] old_v[j]) by {
                    if j > mid {
                        assert(term_lt(old_v[mid as int], old_v[j]));
                    }
                }
                hi = mid;
            },
        }
    }
    let ghost lv = label@;
    labels.insert(lo, label);
    proof {
        lemma_term_lt_strict_total_order();
        let nv = strings_view(labels@);
        assert(nv =~= old_v.insert(lo as int, lv));
        assert forall|a: int, b: int| 0 <= a < b < nv.len() implies term_lt(#[trigger] nv[a], #[trigger] nv[b]) by {
            if a < lo && b < lo {
            } else if a < lo && b == lo {
            } else if a < lo {
                assert(term_lt(old_v[a], lv));
            } else if a == lo {
            } else {
                assert(term_lt(old_v[a - 1], old_v[b - 1]));
            }
        }
        assert forall|x: Seq<char>| #[trigger] nv.contains(x) <==> old_v.contains(x) || x == lv by {
            if nv.contains(x) {
                let k = choose|k: int| 0 <= k < nv.len() && nv[k] == x;
                if k < lo {
                    assert(old_v[k] == x);
                } else if k > lo {
                    assert(old_v[k - 1] == x);
                }
            }
            if old_v.contains(x) {
                let k = choose|k: int| 0 <= k < old_v.len() && old_v[k] == x;
                if k < lo {
                    assert(nv[k] == x);
                } else {
                    assert(nv[k + 1] == x);
                }
            }
            if x == lv {
                assert(nv[lo as int] == x);
            }
        }
    }
}

/// The phrase's terms joined with single spaces.
fn join_phrase(terms: &Vec<String>) -> (text: String)
    ensures
        text@ == join_terms(strings_view(terms@)),
{
    let ghost ts = strings_view(terms@);
    let mut out = String::new();
    proof {
        assert(ts.take(0) =~= Seq::<Seq<char>>::empty());
    }
    for i in 0..terms.len()
        invariant
            ts == strings_view(terms@),
            out@ == join_terms(ts.take(i as int)),
    {
        let ghost before = out@;
        if i > 0 {
            push_char(&mut out, ' ');
        }
        let chars = chars_of(terms[i].as_str());
        let ghost mid = out@;
        for j in 0..chars.len()
            invariant
                out@ == mid + chars@.take(j as int),
        {
            push_char(&mut out, chars[j]);
            assert(chars@.take(j + 1) =~= chars@.take(j as int).push(chars@[j as int]));
        }
        proof {
            assert(chars@.take(chars@.len() as int) =~= chars@);
            assert(ts.take(i + 1).drop_last() =~= ts.take(i as int));
            assert(ts.take(i + 1).last() == ts[i as int]);
            if i == 0 {
                assert(before =~= Seq::<char>::empty());
                assert(out@ =~= ts[0]);
                assert(ts.take(1)[0] == ts[0]);
            } else {
                assert(out@ =~= join_terms(ts.take(i as int)) + seq![' '] + ts[i as int]);
            }
        }
    }
    proof {
        assert(ts.take(ts.len() as int) =~= ts);
    }
    out
}

/// std's `str::starts_with` with a string pattern.
fn str_starts_with(s: &str, prefix: &str) -> (b: bool)
    ensures
        b == starts_with(s@, prefix@),
{
    let sc = chars_of(s);
    let pc = chars_of(prefix);
    if pc.len() > sc.len() {
        return false;
    }
    for i in 0..pc.len()
        invariant
            pc@.len() <= sc@.len(),
            sc@ == s@,
            pc@ == prefix@,
            forall|k: int| 0 <= k < i ==> sc@[k] == pc@[k],
    {
        if sc[i] != pc[i] {
            return false;
        }
    }
    assert(sc@.take(pc@.len() as int) =~= pc@);
    true
}

proof fn lemma_term_hits_push(model: Seq<Seq<Seq<char>>>, d: int, ts: Seq<Seq<char>>, t: Seq<char>)
    ensures
        term_hits(model, d, ts.push(t)) == if model[d].contains(t) {
            term_hits(model, d, ts).push(
                TermHitView {
                    term_frequency: positions_of(model[d], t).len(),
                    document_frequency: docs_containing(model, t).len(),
                },
            )
        } else {
            term_hits(model, d, ts)
        },
{
    assert(ts.push(t).drop_last() =~= ts);
}

proof fn lemma_phrase_hits_push(doc: Seq<Seq<char>>, ps: Seq<PhraseView>, p: PhraseView)
    ensures
        phrase_hits(doc, ps.push(p)) == match phrase_slop(doc, p.terms, p.slop) {
            Some(s) => phrase_hits(doc, ps).push(PhraseHitView { term_count: p.terms.len(), used_slop: s }),
            None => phrase_hits(doc, ps),
        },
{
    assert(ps.push(p).drop_last() =~= ps);
}

/// Term hits exist exactly when the document contains one of the terms.
proof fn lemma_term_hits_nonempty(model: Seq<Seq<Seq<char>>>, d: int, ts: Seq<Seq<char>>)
    ensures
        term_hits(model, d, ts).len() > 0 <==> exists|i: int| 0 <= i < ts.len() && model[d].contains(#[trigger] ts[i]),
    decreases ts.len(),
{
    if ts.len() > 0 {
        lemma_term_hits_nonempty(model, d, ts.drop_last());
        if exists|i: int| 0 <= i < ts.drop_last().len() && model[d].contains(#[trigger] ts.drop_last()[i]) {
            let i = choose|i: int| 0 <= i < ts.drop_last().len() && model[d].contains(#[trigger] ts.drop_last()[i]);
            assert(ts[i] == ts.drop_last()[i]);
        }
        if exists|i: int| 0 <= i < ts.len() && model[d].contains(#[trigger] ts[i]) {
            let i = choose|i: int| 0 <= i < ts.len() && model[d].contains(#[trigger] ts[i]);
            if i < ts.len() - 1 {
                assert(ts.drop_last()[i] == ts[i]);
            }
        }
    }
}

/// Phrase hits exist exactly when the document matches one of the phrases.
proof fn lemma_phrase_hits_nonempty(doc: Seq<Seq<char>>, ps: Seq<PhraseView>)
    ensures
        phrase_hits(doc, ps).len() > 0 <==> exists|i: int| 0 <= i < ps.len() && phrase_found(doc, #[trigger] ps[i]),
    decreases ps.len(),
{
    if ps.len() > 0 {
        lemma_phrase_hits_nonempty(doc, ps.drop_last());
        if exists|i: int| 0 <= i < ps.drop_last().len() && phrase_found(doc, #[trigger] ps.drop_last()[i]) {
            let i = choose|i: int| 0 <= i < ps.drop_last().len() && phrase_found(doc, #[trigger] ps.drop_last()[i]);
            assert(ps[i] == ps.drop_last()[i]);
        }
        if exists|i: int| 0 <= i < ps.len() && phrase_found(doc, #[trigger] ps[i]) {
            let i = choose|i: int| 0 <= i < ps.len() && phrase_found(doc, #[trigger] ps[i]);
            if i < ps.len() - 1 {
                assert(ps.drop_last()[i] == ps[i]);
            }
        }
    }
}

impl SearchEngine {
    /// Records the hits of the terms of `terms` in document `doc_id`, after
    /// those of `before`.
    fn add_term_hits(
        &self,
        terms: &Vec<String>,
        doc_id: usize,
        hits: &mut Vec<TermHit>,
        labels: &mut Vec<String>,
        Ghost(before): Ghost<Seq<Seq<char>>>,
    )
        requires
            self.wf(),
            doc_id < self.doc_terms().len(),
            old(hits)@.map_values(|h: TermHit| h@) == term_hits(self.doc_terms(), doc_id as int, before),
            terms_strictly_sorted(strings_view(old(labels)@)),
        ensures
            final(hits)@.map_values(|h: TermHit| h@) == term_hits(
                self.doc_terms(),
                doc_id as int,
                before + strings_view(terms@),
            ),
            terms_strictly_sorted(strings_view(final(labels)@)),
            forall|x: Seq<char>| #[trigger] strings_view(final(labels)@).contains(x) <==> strings_view(old(labels)@).contains(x)
                || is_term_label(self.doc_terms()[doc_id as int], strings_view(terms@), x),
    {
        let ghost model = self.doc_terms();
        let ghost d = doc_id as int;
        let ghost ts = strings_view(terms@);
        let ghost labels0 = strings_view(labels@);
        proof {
            assert(before + ts.take(0) =~= before);
        }
        for i in 0..terms.len()
            invariant
                self.wf(),
                model == self.doc_terms(),
                d == doc_id,
                doc_id < model.len(),
                ts == strings_view(terms@),
                hits@.map_values(|h: TermHit| h@) == term_hits(model, d, before + ts.take(i as int)),
                terms_strictly_sorted(strings_view(labels@)),
                forall|x: Seq<char>| #[trigger] strings_view(labels@).contains(x) <==> labels0.contains(x)
                    || is_term_label(model[d], ts.take(i as int), x),
        {
            let term = &terms[i];
            assert(term@ == ts[i as int]);
            proof {
                assert((before + ts.take(i as int)).push(ts[i as int]) =~= before + ts.take(i + 1));
                lemma_term_hits_push(model, d, before + ts.take(i as int), ts[i as int]);
            }
            let ghost old_hits = hits@;
            let ghost old_labels = strings_view(labels@);
            match self.term_hit(term.as_str(), doc_id) {
                Some(hit) => {
                    hits.push(hit);
                    assert(hits@.map_values(|h: TermHit| h@) =~= old_hits.map_values(|h: TermHit| h@).push(hit@));
                    insert_label(labels, term.clone());
                },
                None => {},
            }
            proof {
                assert forall|x: Seq<char>| #[trigger] strings_view(labels@).contains(x) <==> labels0.contains(x)
                    || is_term_label(model[d], ts.take(i + 1), x) by {
                    if is_term_label(model[d], ts.take(i as int), x) {
                        let k = choose|k: int| 0 <= k < ts.take(i as int).len() && #[trigger] ts.take(i as int)[k] == x && model[d].contains(x);
                        assert(ts.take(i + 1)[k] == x);
                    }
                    if is_term_label(model[d], ts.take(i + 1), x) {
                        let k = choose|k: int| 0 <= k < ts.take(i + 1).len() && #[trigger] ts.take(i + 1)[k] == x && model[d].contains(x);
                        if k < i {
                            assert(ts.take(i as int)[k] == x);
                        }
                    }
                    if model[d].contains(ts[i as int]) {
                        assert(ts.take(i + 1)[i as int] == ts[i as int]);
                    }
                }
            }
        }
        proof {
            assert(ts.take(ts.len() as int) =~= ts);
        }
    }

    /// Records the hits of the phrases of `phrases` in document `doc_id`,
    /// after those of `before`.
    fn add_phrase_hits(
        &self,
        phrases: &Vec<PhraseQuery>,
        doc_id: usize,
        hits: &mut Vec<PhraseHit>,
        labels: &mut Vec<String>,
        Ghost(before): Ghost<Seq<PhraseView>>,
    )
        requires
            self.wf(),
            doc_id < self.doc_terms().len(),
            old(hits)@.map_values(|h: PhraseHit| h@) == phrase_hits(self.doc_terms()[doc_id as int], before),
            terms_strictly_sorted(strings_view(old(labels)@)),
        ensures
            final(hits)@.map_values(|h: PhraseHit| h@) == phrase_hits(
                self.doc_terms()[doc_id as int],
                before + phrases@.map_values(|p: PhraseQuery| p@),
            ),
            terms_strictly_sorted(strings_view(final(labels)@)),
            forall|x: Seq<char>| #[trigger] strings_view(final(labels)@).contains(x) <==> strings_view(old(labels)@).contains(x)
                || is_phrase_label(self.doc_terms()[doc_id as int], phrases@.map_values(|p: PhraseQuery| p@), x),
    {
        let ghost doc = self.doc_terms()[doc_id as int];
        let ghost ps = phrases@.map_values(|p: PhraseQuery| p@);
        let ghost labels0 = strings_view(labels@);
        proof {
            assert(before + ps.take(0) =~= before);
        }
        for i in 0..phrases.len()
            invariant
                self.wf(),
                doc_id < self.doc_terms().len(),
                doc == self.doc_terms()[doc_id as int],
                ps == phrases@.map_values(|p: PhraseQuery| p@),
                hits@.map_values(|h: PhraseHit| h@) == phrase_hits(doc, before + ps.take(i as int)),
                terms_strictly_sorted(strings_view(labels@)),
                forall|x: Seq<char>| #[trigger] strings_view(labels@).contains(x) <==> labels0.contains(x)
                    || is_phrase_label(doc, ps.take(i as int), x),
        {
            let phrase = &phrases[i];
            assert(phrase@ == ps[i as int]);
            proof {
                assert((before + ps.take(i as int)).push(ps[i as int]) =~= before + ps.take(i + 1));
                lemma_phrase_hits_push(doc, before + ps.take(i as int), ps[i as int]);
            }
            let ghost old_hits = hits@;
            match self.phrase_match_slop(doc_id, phrase) {
                Some(used_slop) => {
                    let hit = PhraseHit { term_count: phrase.terms.len(), used_slop };
                    hits.push(hit);
                    assert(hits@.map_values(|h: PhraseHit| h@) =~= old_hits.map_values(|h: PhraseHit| h@).push(hit@));
                    let text = join_phrase(&phrase.terms);
                    insert_label(labels, text);
                },
                None => {},
            }
            proof {
                assert forall|x: Seq<char>| #[trigger] strings_view(labels@).contains(x) <==> labels0.contains(x)
                    || is_phrase_label(doc, ps.take(i + 1), x) by {
                    if is_phrase_label(doc, ps.take(i as int), x) {
                        let k = choose|k: int| 0 <= k < ps.take(i as int).len() && join_terms((#[trigger] ps.take(i as int)[k]).terms) == x
                            && phrase_found(doc, ps.take(i as int)[k]);
                        assert(ps.take(i + 1)[k] == ps.take(i as int)[k]);
                    }
                    if is_phrase_label(doc, ps.take(i + 1), x) {
                        let k = choose|k: int| 0 <= k < ps.take(i + 1).len() && join_terms((#[trigger] ps.take(i + 1)[k]).terms) == x
                            && phrase_found(doc, ps.take(i + 1)[k]);
                        if k < i {
                            assert(ps.take(i as int)[k] == ps.take(i + 1)[k]);
                        }
                    }
                    if phrase_found(doc, ps[i as int]) {
                        assert(ps.take(i + 1)[i as int] == ps[i as int]);
                    }
                }
            }
        }
        proof {
            assert(ps.take(ps.len() as int) =~= ps);
        }
    }
}

/// The value of an optional prefix.
pub open spec fn prefix_view(prefix: Option<&str>) -> Option<Seq<char>> {
    match prefix {
        Some(p) => Some(p@),
        None => None,
    }
}

proof fn lemma_term_label_concat(doc: Seq<Seq<char>>, a: Seq<Seq<char>>, b: Seq<Seq<char>>, x: Seq<char>)
    ensures
        is_term_label(doc, a + b, x) <==> is_term_label(doc, a, x) || is_term_label(doc, b, x),
{
    if is_term_label(doc, a + b, x) {
        let k = choose|k: int| 0 <= k < (a + b).len() && #[trigger] (a + b)[k] == x && doc.contains(x);
        if k < a.len() {
            assert(a[k] == x);
        } else {
            assert(b[k - a.len()] == x);
        }
    }
    if is_term_label(doc, a, x) {
        let k = choose|k: int| 0 <= k < a.len() && #[trigger] a[k] == x && doc.contains(x);
        assert((a + b)[k] == x);
    }
    if is_term_label(doc, b, x) {
        let k = choose|k: int| 0 <= k < b.len() && #[trigger] b[k] == x && doc.contains(x);
        assert((a + b)[a.len() + k] == x);
    }
}

proof fn lemma_phrase_label_concat(doc: Seq<Seq<char>>, a: Seq<PhraseView>, b: Seq<PhraseView>, x: Seq<char>)
    ensures
        is_phrase_label(doc, a + b, x) <==> is_phrase_label(doc, a, x) || is_phrase_label(doc, b, x),
{
    if is_phrase_label(doc, a + b, x) {
        let k = choose|k: int| 0 <= k < (a + b).len() && join_terms((#[trigger] (a + b)[k]).terms) == x && phrase_found(doc, (a + b)[k]);
        if k < a.len() {
            assert(a[k] == (a + b)[k]);
        } else {
            assert(b[k - a.len()] == (a + b)[k]);
        }
    }
    if is_phrase_label(doc, a, x) {
        let k = choose|k: int| 0 <= k < a.len() && join_terms((#[trigger] a[k]).terms) == x && phrase_found(doc, a[k]);
        assert((a + b)[k] == a[k]);
    }
    if is_phrase_label(doc, b, x) {
        let k = choose|k: int| 0 <= k < b.len() && join_terms((#[trigger] b[k]).terms) == x && phrase_found(doc, b[k]);
        assert((a + b)[a.len() + k] == b[k]);
    }
}

proof fn lemma_matched_label_split(doc: Seq<Seq<char>>, q: ParsedQueryView, x: Seq<char>)
    ensures
        is_matched_label(doc, q, x) <==> is_term_label(doc, scoring_terms(q), x) || is_phrase_label(doc, scoring_phrases(q), x),
{
}

impl SearchEngine {
    /// What document `doc_id` gives for the query: its match, or none when
    /// it is not returned.
    fn evaluate_document(&self, parsed: &ParsedQuery, doc_id: usize, path_prefix: Option<&str>) -> (r: Option<DocumentMatch>)
        requires
            self.wf(),
            doc_id < self.doc_terms().len(),
        ensures
            match r {
                Some(m) => document_matches(self.doc_terms(), self.docs(), doc_id as int, parsed@, prefix_view(path_prefix))
                    && is_match_of(m, self.doc_terms(), self.docs(), doc_id as int, parsed@),
                None => !document_matches(self.doc_terms(), self.docs(), doc_id as int, parsed@, prefix_view(path_prefix)),
            },
    {
        let ghost model = self.doc_terms();
        let ghost d = doc_id as int;
        let ghost doc = model[d];
        let ghost q = parsed@;
        let mut hits: Vec<TermHit> = Vec::new();
        let mut labels: Vec<String> = Vec::new();
        proof {
            assert(hits@.map_values(|h: TermHit| h@) =~= term_hits(model, d, Seq::empty()));
            assert(strings_view(labels@) =~= Seq::<Seq<char>>::empty());
        }
        let ghost labels0 = strings_view(labels@);
        self.add_term_hits(&parsed.optional_terms, doc_id, &mut hits, &mut labels, Ghost(Seq::empty()));
        assert(Seq::<Seq<char>>::empty() + q.optional_terms =~= q.optional_terms);
        let ghost labels1 = strings_view(labels@);
        self.add_term_hits(&parsed.required_terms, doc_id, &mut hits, &mut labels, Ghost(q.optional_terms));
        let ghost labels2 = strings_view(labels@);
        let mut found_phrases: Vec<PhraseHit> = Vec::new();
        proof {
            assert(found_phrases@.map_values(|h: PhraseHit| h@) =~= phrase_hits(doc, Seq::empty()));
        }
        self.add_phrase_hits(&parsed.phrases, doc_id, &mut found_phrases, &mut labels, Ghost(Seq::empty()));
        assert(Seq::<PhraseView>::empty() + q.phrases =~= q.phrases);
        let ghost labels3 = strings_view(labels@);
        self.add_phrase_hits(&parsed.required_phrases, doc_id, &mut found_phrases, &mut labels, Ghost(q.phrases));
        proof {
            lemma_term_hits_nonempty(model, d, scoring_terms(q));
            lemma_phrase_hits_nonempty(doc, scoring_phrases(q));
            assert forall|x: Seq<char>| #[trigger] strings_view(labels@).contains(x) <==> is_matched_label(doc, q, x) by {
                lemma_term_label_concat(doc, q.optional_terms, q.required_terms, x);
                lemma_phrase_label_concat(doc, q.phrases, q.required_phrases, x);
                lemma_matched_label_split(doc, q, x);
                assert(!labels0.contains(x));
            }
        }
        if hits.len() == 0 && found_phrases.len() == 0 {
            return None;
        }
        for i in 0..parsed.required_terms.len()
            invariant
                self.wf(),
                model == self.doc_terms(),
                doc_id < model.len(),
                q == parsed@,
                forall|k: int| 0 <= k < i ==> model[doc_id as int].contains(#[trigger] q.required_terms[k]),
        {
            assert(parsed.required_terms@[i as int]@ == q.required_terms[i as int]);
            if !self.contains_normalized_term(doc_id, parsed.required_terms[i].as_str()) {
                return None;
            }
        }
        for i in 0..parsed.excluded_terms.len()
            invariant
                self.wf(),
                model == self.doc_terms(),
                doc_id < model.len(),
                q == parsed@,
                forall|k: int| 0 <= k < i ==> !model[doc_id as int].contains(#[trigger] q.excluded_terms[k]),
        {
            assert(parsed.excluded_terms@[i as int]@ == q.excluded_terms[i as int]);
            if self.contains_normalized_term(doc_id, parsed.excluded_terms[i].as_str()) {
                return None;
            }
        }
        for i in 0..parsed.required_phrases.len()
            invariant
                self.wf(),
                model == self.doc_terms(),
                doc_id < model.len(),
                q == parsed@,
                forall|k: int| 0 <= k < i ==> phrase_found(model[doc_id as int], #[trigger] q.required_phrases[k]),
        {
            assert(parsed.required_phrases@[i as int]@ == q.required_phrases[i as int]);
            if !self.doc_has_phrase(doc_id, &parsed.required_phrases[i]) {
                return None;
            }
        }
        for i in 0..parsed.excluded_phrases.len()
            invariant
                self.wf(),
                model == self.doc_terms(),
                doc_id < model.len(),
                q == parsed@,
                forall|k: int| 0 <= k < i ==> !phrase_found(model[doc_id as int], #[trigger] q.excluded_phrases[k]),
        {
            assert(parsed.excluded_phrases@[i as int]@ == q.excluded_phrases[i as int]);
            if self.doc_has_phrase(doc_id, &parsed.excluded_phrases[i]) {
                return None;
            }
        }
        proof {
            self.lemma_docs_agree();
        }
        let document = match self.document(doc_id) {
            Some(document) => document,
            None => return None,
        };
        if let Some(prefix) = path_prefix {
            if !str_starts_with(document.path.as_str(), prefix) {
                return None;
            }
        }
        let path = document.path.clone();
        Some(DocumentMatch {
            doc_id,
            path,
            length: document.length,
            term_hits: hits,
            phrase_hits: found_phrases,
            matched_terms: labels,
        })
    }

    /// The documents returned for a parsed query, by increasing id, each with
    /// the term and phrase hits that a ranking needs. Only documents whose
    /// path starts with `path_prefix` are returned, when it is given.
    pub fn match_documents(&self, parsed: &ParsedQuery, path_prefix: Option<&str>) -> (matches: Vec<DocumentMatch>)
        requires
            self.wf(),
        ensures
            matches@.len() == matching_docs(
                self.doc_terms(),
                self.docs(),
                parsed@,
                prefix_view(path_prefix),
                self.docs().len() as int,
            ).len(),
            forall|k: int|
                0 <= k < matches@.len() ==> {
                    let d = matching_docs(
                        self.doc_terms(),
                        self.docs(),
                        parsed@,
                        prefix_view(path_prefix),
                        self.docs().len() as int,
                    )[k];
                    is_match_of(#[trigger] matches@[k], self.doc_terms(), self.docs(), d, parsed@)
                },
    {
        let ghost model = self.doc_terms();
        let ghost docs = self.docs();
        let ghost q = parsed@;
        let ghost prefix = prefix_view(path_prefix);
        proof {
            self.lemma_docs_agree();
        }
        let n = self.document_count();
        let mut matches: Vec<DocumentMatch> = Vec::new();
        for doc_id in 0..n
            invariant
                self.wf(),
                model == self.doc_terms(),
                docs == self.docs(),
                q == parsed@,
                prefix == prefix_view(path_prefix),
                n == docs.len(),
                n == model.len(),
                matches@.len() == matching_docs(model, docs, q, prefix, doc_id as int).len(),
                forall|k: int|
                    0 <= k < matches@.len() ==> is_match_of(
                        #[trigger] matches@[k],
                        model,
                        docs,
                        matching_docs(model, docs, q, prefix, doc_id as int)[k],
                        q,
                    ),
        {
            let ghost before = matches@;
            match self.evaluate_document(parsed, doc_id, path_prefix) {
                Some(m) => {
                    matches.push(m);
                    proof {
                        let ms = matching_docs(model, docs, q, prefix, doc_id + 1);
                        assert(ms == matching_docs(model, docs, q, prefix, doc_id as int).push(doc_id as int));
                        assert forall|k: int| 0 <= k < matches@.len() implies is_match_of(#[trigger] matches@[k], model, docs, ms[k], q) by {
                            if k < before.len() {
                                assert(matches@[k] == before[k]);
                            }
                        }
                    }
                },
                None => {
                    proof {
                        assert(matching_docs(model, docs, q, prefix, doc_id + 1) == matching_docs(model, docs, q, prefix, doc_id as int));
                    }
                },
            }
        }
        matches
    }
}

} // verus!
