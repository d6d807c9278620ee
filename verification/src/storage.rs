//! Index persistence.
//!
//! The format is plain, human-readable text, one record per line:
//!
//! ```text
//! MSE1
//! AVG\t3.500000
//! DOC\t0\tREADME.md\t120
//! POST\trust\t0\t0,9,42
//! ```
//!
//! `DOC` lines give each document's id, path and length; `POST` lines give,
//! term by term in string order and document by document, the positions of
//! the term in the document. Paths and terms escape backslash, tab, newline
//! and carriage return with a backslash.
use vstd::prelude::*;

use crate::document::{
    inferred_title, normalized_extension, opt_view, path_extension, DocumentMeta, DocumentView,
};
use crate::error::SearchError;
use crate::format::{
    decimal_field, escape_chars, escape_field, free_of, join_with, lemma_decimal_field_of_text,
    lemma_split_join, lemma_split_on_nonempty, lemma_unescape_escape, parse_decimal, split_chars,
    split_on, unescape_chars, unescape_field,
};
use crate::index::{
    docs_containing, in_vocabulary, lemma_docs_containing, lemma_positions_of, lemma_sorted_vocabulary,
    positions_of, posting_docs, sorted_vocabulary, total_length, usizes_view, Posting, SearchEngine,
};
use crate::json::{decimal_text, push_decimal};
use crate::query::strings_view;
use crate::text::{chars_of, copy_range, push_char, string_from_chars};

verus! {

/// The first line of a saved index.
pub open spec fn header_line() -> Seq<char> {
    seq!['M', 'S', 'E', '1']
}

/// What the line of the average document length starts with.
pub open spec fn average_prefix() -> Seq<char> {
    seq!['A', 'V', 'G', '\t']
}

/// The tag of a document line.
pub open spec fn doc_tag() -> Seq<char> {
    seq!['D', 'O', 'C']
}

/// The tag of a posting line.
pub open spec fn post_tag() -> Seq<char> {
    seq!['P', 'O', 'S', 'T']
}

/// The line of one document.
pub open spec fn doc_line(id: nat, path: Seq<char>, length: nat) -> Seq<char> {
    join_with(seq![doc_tag(), decimal_text(id), escape_field(path), decimal_text(length)], '\t')
}

/// Positions separated by commas.
pub open spec fn positions_text(positions: Seq<nat>) -> Seq<char> {
    join_with(positions.map_values(|p: nat| decimal_text(p)), ',')
}

/// The positions of a term in one document.
pub struct Post {
    pub term: Seq<char>,
    pub doc: nat,
    pub positions: Seq<nat>,
}

/// The line of one posting.
pub open spec fn post_line(p: Post) -> Seq<char> {
    join_with(seq![post_tag(), escape_field(p.term), decimal_text(p.doc), positions_text(p.positions)], '\t')
}

/// Integers as naturals.
pub open spec fn nats(s: Seq<int>) -> Seq<nat> {
    s.map_values(|x: int| x as nat)
}

/// The postings of `t`, document by document.
pub open spec fn term_posts(model: Seq<Seq<Seq<char>>>, t: Seq<char>) -> Seq<Post> {
    docs_containing(model, t).map_values(
        |d: int| Post { term: t, doc: d as nat, positions: nats(positions_of(model[d], t)) },
    )
}

/// The postings of the terms of `terms`, term by term.
pub open spec fn all_posts(model: Seq<Seq<Seq<char>>>, terms: Seq<Seq<char>>) -> Seq<Post>
    decreases terms.len(),
{
    if terms.len() == 0 {
        Seq::empty()
    } else {
        all_posts(model, terms.drop_last()) + term_posts(model, terms.last())
    }
}

/// The lines of the documents.
pub open spec fn doc_lines(paths: Seq<Seq<char>>, model: Seq<Seq<Seq<char>>>) -> Seq<Seq<char>> {
    Seq::new(paths.len(), |d: int| doc_line(d as nat, paths[d], model[d].len()))
}

/// The lines of a saved index: header, average, documents, postings.
pub open spec fn saved_lines(
    paths: Seq<Seq<char>>,
    model: Seq<Seq<Seq<char>>>,
    average: Seq<char>,
) -> Seq<Seq<char>> {
    seq![header_line(), average_prefix() + average] + doc_lines(paths, model) + all_posts(
        model,
        sorted_vocabulary(model),
    ).map_values(|p: Post| post_line(p))
}

/// Lines, each ended by a newline.
pub open spec fn lines_text(lines: Seq<Seq<char>>) -> Seq<char>
    decreases lines.len(),
{
    if lines.len() == 0 {
        Seq::empty()
    } else {
        lines_text(lines.drop_last()) + lines.last() + seq!['\n']
    }
}

/// The text of a saved index of documents with `paths` and token terms
/// `model`, with `average` written as the average document length.
pub open spec fn saved_text(paths: Seq<Seq<char>>, model: Seq<Seq<Seq<char>>>, average: Seq<char>) -> Seq<char> {
    lines_text(saved_lines(paths, model, average))
}

/// A line read from a saved index.
pub enum IndexLine {
    Doc { id: nat, path: Seq<char>, length: nat },
    Posting(Post),
}

/// Every piece is a decimal field.
pub open spec fn all_decimal(pieces: Seq<Seq<char>>) -> bool {
    forall|i: int| 0 <= i < pieces.len() ==> (#[trigger] decimal_field(pieces[i])) is Some
}

/// The positions of a posting line: decimal fields separated by commas.
pub open spec fn positions_field(s: Seq<char>) -> Option<Seq<nat>> {
    let pieces = split_on(s, ',');
    if all_decimal(pieces) {
        Some(pieces.map_values(|p: Seq<char>| decimal_field(p).unwrap()))
    } else {
        None
    }
}

/// What one line of a saved index says, if it is a document or a posting
/// line: four fields separated by tabs.
pub open spec fn parse_line(l: Seq<char>) -> Option<IndexLine> {
    let f = split_on(l, '\t');
    if f.len() == 4 && f[0] == doc_tag() {
        match (decimal_field(f[1]), unescape_field(f[2]), decimal_field(f[3])) {
            (Some(id), Some(path), Some(length)) => Some(IndexLine::Doc { id, path, length }),
            _ => None,
        }
    } else if f.len() == 4 && f[0] == post_tag() {
        match (unescape_field(f[1]), decimal_field(f[2]), positions_field(f[3])) {
            (Some(term), Some(doc), Some(positions)) => Some(IndexLine::Posting(Post { term, doc, positions })),
            _ => None,
        }
    } else {
        None
    }
}

/// The documents and postings read so far.
pub struct Sections {
    pub paths: Seq<Seq<char>>,
    pub lengths: Seq<nat>,
    pub posts: Seq<Post>,
}

/// Reads document and posting lines in order. A document line must carry
/// the next document id.
pub open spec fn read_lines(lines: Seq<Seq<char>>) -> Option<Sections>
    decreases lines.len(),
{
    if lines.len() == 0 {
        Some(Sections { paths: Seq::empty(), lengths: Seq::empty(), posts: Seq::empty() })
    } else {
        match read_lines(lines.drop_last()) {
            Some(sec) => match parse_line(lines.last()) {
                Some(IndexLine::Doc { id, path, length }) => if id == sec.paths.len() {
                    Some(Sections { paths: sec.paths.push(path), lengths: sec.lengths.push(length), posts: sec.posts })
                } else {
                    None
                },
                Some(IndexLine::Posting(p)) => Some(Sections { paths: sec.paths, lengths: sec.lengths, posts: sec.posts.push(p) }),
                None => None,
            },
            None => None,
        }
    }
}

/// One slot per token of each document, none filled yet.
pub open spec fn empty_slots(lengths: Seq<nat>) -> Seq<Seq<Option<Seq<char>>>> {
    lengths.map_values(|n: nat| Seq::new(n, |q: int| None::<Seq<char>>))
}

/// Puts the term of a posting into the slots of its positions; none when
/// the posting points outside the documents.
pub open spec fn place(slots: Seq<Seq<Option<Seq<char>>>>, p: Post) -> Option<Seq<Seq<Option<Seq<char>>>>> {
    if p.doc < slots.len() && (forall|i: int| 0 <= i < p.positions.len() ==> #[trigger] p.positions[i] < slots[p.doc as int].len()) {
        let row = slots[p.doc as int];
        Some(slots.update(p.doc as int, Seq::new(row.len(), |q: int| if p.positions.contains(q as nat) {
            Some(p.term)
        } else {
            row[q]
        })))
    } else {
        None
    }
}

/// Places all the postings, in order.
pub open spec fn place_all(lengths: Seq<nat>, posts: Seq<Post>) -> Option<Seq<Seq<Option<Seq<char>>>>>
    decreases posts.len(),
{
    if posts.len() == 0 {
        Some(empty_slots(lengths))
    } else {
        match place_all(lengths, posts.drop_last()) {
            Some(slots) => place(slots, posts.last()),
            None => None,
        }
    }
}

/// Every slot holds a term.
pub open spec fn all_filled(slots: Seq<Seq<Option<Seq<char>>>>) -> bool {
    forall|d: int, q: int| 0 <= d < slots.len() && 0 <= q < slots[d].len() ==> (#[trigger] slots[d][q]) is Some
}

/// The terms in the slots.
pub open spec fn slot_terms(slots: Seq<Seq<Option<Seq<char>>>>) -> Seq<Seq<Seq<char>>> {
    slots.map_values(|row: Seq<Option<Seq<char>>>| row.map_values(|x: Option<Seq<char>>| x.unwrap()))
}

/// What a saved index holds.
pub struct SavedIndex {
    pub paths: Seq<Seq<char>>,
    pub model: Seq<Seq<Seq<char>>>,
    pub average: Seq<char>,
}

/// The lines of a text: the pieces between newlines, without the empty
/// piece after a final newline.
pub open spec fn text_lines(text: Seq<char>) -> Seq<Seq<char>> {
    let pieces = split_on(text, '\n');
    if pieces.last().len() == 0 {
        pieces.drop_last()
    } else {
        pieces
    }
}

/// What a saved index text holds: its header, its average line, then its
/// document and posting lines, whose postings must fill every token slot of
/// every document; none when the text is not such an index.
pub open spec fn decode_text(text: Seq<char>) -> Option<SavedIndex> {
    let lines = text_lines(text);
    if lines.len() >= 2 && lines[0] == header_line() && lines[1].len() >= 4 && lines[1].take(4) == average_prefix() {
        match read_lines(lines.skip(2)) {
            Some(sec) => match place_all(sec.lengths, sec.posts) {
                Some(slots) => if all_filled(slots) && total_length(slot_terms(slots)) <= usize::MAX {
                    Some(SavedIndex { paths: sec.paths, model: slot_terms(slots), average: lines[1].skip(4) })
                } else {
                    None
                },
                None => None,
            },
            None => None,
        }
    } else {
        None
    }
}

/// Why a text is not a saved index: the first of its checks that fails.
pub open spec fn decode_failure(text: Seq<char>) -> Seq<char> {
    let lines = text_lines(text);
    if !(lines.len() >= 2 && lines[0] == header_line()) {
        "missing index header"@
    } else if !(lines[1].len() >= 4 && lines[1].take(4) == average_prefix()) {
        "missing average document length"@
    } else {
        match read_lines(lines.skip(2)) {
            Some(sec) => match place_all(sec.lengths, sec.posts) {
                Some(slots) => if !all_filled(slots) {
                    "a token has no term"@
                } else {
                    "too many tokens"@
                },
                None => "posting outside the documents"@,
            },
            None => "malformed index line"@,
        }
    }
}

proof fn lemma_lines_text_join(lines: Seq<Seq<char>>)
    ensures
        lines_text(lines) == join_with(lines.push(Seq::empty()), '\n'),
    decreases lines.len(),
{
    if lines.len() > 0 {
        let init = lines.drop_last();
        lemma_lines_text_join(init);
        assert(lines.push(Seq::empty()).drop_last() =~= lines);
        assert(lines =~= init.push(lines.last()));
        assert(init.push(lines.last()).push(Seq::empty()).drop_last() =~= init.push(lines.last()));
        assert(init.push(Seq::empty()).drop_last() =~= init);
        if init.len() == 0 {
            assert(join_with(lines, '\n') == lines[0]);
            assert(join_with(init.push(Seq::empty()), '\n') =~= Seq::<char>::empty());
            assert(lines_text(init) =~= Seq::<char>::empty());
        } else {
            assert(join_with(init.push(Seq::empty()), '\n') =~= join_with(init, '\n') + seq!['\n']);
            assert(join_with(lines, '\n') == join_with(init, '\n') + seq!['\n'] + lines.last());
        }
        assert(join_with(lines.push(Seq::empty()), '\n') =~= join_with(lines, '\n') + seq!['\n']);
    } else {
        assert(lines.push(Seq::empty()) =~= seq![Seq::<char>::empty()]);
    }
}

/// Joined parts are free of a char that neither they nor the separator hold.
proof fn lemma_join_free(parts: Seq<Seq<char>>, sep: char, c: char)
    requires
        sep != c,
        forall|i: int| 0 <= i < parts.len() ==> free_of(#[trigger] parts[i], c),
    ensures
        free_of(join_with(parts, sep), c),
    decreases parts.len(),
{
    if parts.len() > 1 {
        lemma_join_free(parts.drop_last(), sep, c);
        let j = join_with(parts.drop_last(), sep);
        let all = j + seq![sep] + parts.last();
        assert forall|i: int| 0 <= i < all.len() implies all[i] != c by {
            if i < j.len() {
                assert(all[i] == j[i]);
            } else if i > j.len() {
                assert(all[i] == parts.last()[i - j.len() - 1]);
            }
        }
    } else if parts.len() == 1 {
        assert(free_of(parts[0], c));
    }
}

/// A document line reads back as the document it was written for.
pub proof fn lemma_parse_doc_line(id: nat, path: Seq<char>, length: nat)
    requires
        id <= usize::MAX,
        length <= usize::MAX,
    ensures
        parse_line(doc_line(id, path, length)) == Some(IndexLine::Doc { id, path, length }),
        free_of(doc_line(id, path, length), '\n'),
{
    let f = seq![doc_tag(), decimal_text(id), escape_field(path), decimal_text(length)];
    lemma_decimal_field_of_text(id);
    lemma_decimal_field_of_text(length);
    lemma_unescape_escape(path);
    assert forall|i: int| 0 <= i < f.len() implies free_of(#[trigger] f[i], '\t') && free_of(f[i], '\n') by {
        if i == 0 {
            assert(free_of(doc_tag(), '\t'));
        }
    }
    lemma_split_join(f, '\t');
    lemma_join_free(f, '\t', '\n');
    assert(doc_tag() != post_tag()) by {
        assert(doc_tag().len() != post_tag().len());
    }
}

/// A posting line reads back as the posting it was written for.
pub proof fn lemma_parse_post_line(p: Post)
    requires
        p.doc <= usize::MAX,
        p.positions.len() >= 1,
        forall|i: int| 0 <= i < p.positions.len() ==> #[trigger] p.positions[i] <= usize::MAX,
    ensures
        parse_line(post_line(p)) == Some(IndexLine::Posting(p)),
        free_of(post_line(p), '\n'),
{
    let pieces = p.positions.map_values(|q: nat| decimal_text(q));
    assert forall|i: int| 0 <= i < pieces.len() implies free_of(#[trigger] pieces[i], ',') && free_of(pieces[i], '\n')
        && decimal_field(pieces[i]) == Some(p.positions[i]) by {
        lemma_decimal_field_of_text(p.positions[i]);
    }
    lemma_split_join(pieces, ',');
    lemma_join_free(pieces, ',', '\n');
    assert forall|i: int| 0 <= i < pieces.len() implies free_of(#[trigger] pieces[i], '\t') by {
        lemma_decimal_field_of_text(p.positions[i]);
    }
    lemma_join_free(pieces, ',', '\t');
    assert(positions_field(positions_text(p.positions)) == Some(p.positions)) by {
        assert(split_on(positions_text(p.positions), ',') == pieces);
        assert(pieces.map_values(|s: Seq<char>| decimal_field(s).unwrap()) =~= p.positions);
    }
    let f = seq![post_tag(), escape_field(p.term), decimal_text(p.doc), positions_text(p.positions)];
    lemma_decimal_field_of_text(p.doc);
    lemma_unescape_escape(p.term);
    assert forall|i: int| 0 <= i < f.len() implies free_of(#[trigger] f[i], '\t') && free_of(f[i], '\n') by {
        if i == 0 {
            assert(free_of(post_tag(), '\t'));
        }
    }
    lemma_split_join(f, '\t');
    lemma_join_free(f, '\t', '\n');
    assert(post_tag() != doc_tag()) by {
        assert(doc_tag().len() != post_tag().len());
    }
}

/// Document paths and token terms that the format can hold: one path per
/// document, and counts that fit in `usize`.
pub open spec fn storable(paths: Seq<Seq<char>>, model: Seq<Seq<Seq<char>>>) -> bool {
    &&& paths.len() == model.len()
    &&& paths.len() <= usize::MAX
    &&& forall|d: int| 0 <= d < model.len() ==> #[trigger] model[d].len() <= usize::MAX
    &&& total_length(model) <= usize::MAX
}

/// A posting that points at tokens of the model that hold its term.
pub open spec fn post_fits(model: Seq<Seq<Seq<char>>>, x: Post) -> bool {
    &&& x.doc < model.len()
    &&& x.positions.len() >= 1
    &&& forall|i: int|
        0 <= i < x.positions.len() ==> #[trigger] x.positions[i] < model[x.doc as int].len()
            && model[x.doc as int][x.positions[i] as int] == x.term
}

proof fn lemma_term_post(model: Seq<Seq<Seq<char>>>, t: Seq<char>, k: int)
    requires
        0 <= k < docs_containing(model, t).len(),
    ensures
        post_fits(model, term_posts(model, t)[k]),
        term_posts(model, t)[k].term == t,
        term_posts(model, t)[k].doc == docs_containing(model, t)[k],
        forall|q: int|
            0 <= q < model[docs_containing(model, t)[k]].len() && model[docs_containing(model, t)[k]][q] == t
                ==> #[trigger] term_posts(model, t)[k].positions.contains(q as nat),
{
    lemma_docs_containing(model, t);
    let d = docs_containing(model, t)[k];
    lemma_positions_of(model[d], t);
    let x = term_posts(model, t)[k];
    let ps = positions_of(model[d], t);
    assert(x.positions == nats(ps));
    assert forall|q: int| 0 <= q < model[d].len() && model[d][q] == t implies #[trigger] x.positions.contains(q as nat) by {
        assert(ps.contains(q));
        let m = choose|m: int| 0 <= m < ps.len() && ps[m] == q;
        assert(x.positions[m] == q as nat);
    }
}

/// Which term and which of its documents a posting of `all_posts` is for.
proof fn lemma_all_posts_element(model: Seq<Seq<Seq<char>>>, terms: Seq<Seq<char>>, j: int) -> (ik: (int, int))
    requires
        0 <= j < all_posts(model, terms).len(),
    ensures
        0 <= ik.0 < terms.len(),
        0 <= ik.1 < docs_containing(model, terms[ik.0]).len(),
        all_posts(model, terms)[j] == term_posts(model, terms[ik.0])[ik.1],
    decreases terms.len(),
{
    let init = terms.drop_last();
    let a = all_posts(model, init);
    if j < a.len() {
        let r = lemma_all_posts_element(model, init, j);
        assert(init[r.0] == terms[r.0]);
        r
    } else {
        (terms.len() - 1, j - a.len())
    }
}

/// Where the posting of a term and one of its documents is in `all_posts`.
proof fn lemma_all_posts_member(model: Seq<Seq<Seq<char>>>, terms: Seq<Seq<char>>, i: int, k: int) -> (j: int)
    requires
        0 <= i < terms.len(),
        0 <= k < docs_containing(model, terms[i]).len(),
    ensures
        0 <= j < all_posts(model, terms).len(),
        all_posts(model, terms)[j] == term_posts(model, terms[i])[k],
    decreases terms.len(),
{
    let init = terms.drop_last();
    let a = all_posts(model, init);
    if i < terms.len() - 1 {
        assert(init[i] == terms[i]);
        lemma_all_posts_member(model, init, i, k)
    } else {
        a.len() + k
    }
}

proof fn lemma_saved_posts_fit(model: Seq<Seq<Seq<char>>>, j: int)
    requires
        0 <= j < all_posts(model, sorted_vocabulary(model)).len(),
    ensures
        post_fits(model, all_posts(model, sorted_vocabulary(model))[j]),
{
    let ik = lemma_all_posts_element(model, sorted_vocabulary(model), j);
    lemma_term_post(model, sorted_vocabulary(model)[ik.0], ik.1);
}

/// The lines of a saved index are its text cut at the newlines.
proof fn lemma_saved_text_lines(paths: Seq<Seq<char>>, model: Seq<Seq<Seq<char>>>, average: Seq<char>)
    requires
        storable(paths, model),
        free_of(average, '\n'),
    ensures
        text_lines(saved_text(paths, model, average)) == saved_lines(paths, model, average),
{
    let lines = saved_lines(paths, model, average);
    let docs = doc_lines(paths, model);
    let posts = all_posts(model, sorted_vocabulary(model));
    let pl = posts.map_values(|p: Post| post_line(p));
    assert forall|i: int| 0 <= i < lines.len() implies free_of(#[trigger] lines[i], '\n') by {
        if i == 0 {
            assert(lines[0] == header_line());
        } else if i == 1 {
            let l = average_prefix() + average;
            assert(lines[1] == l);
            assert forall|k: int| 0 <= k < l.len() implies l[k] != '\n' by {
                if k >= 4 {
                    assert(l[k] == average[k - 4]);
                }
            }
        } else if i < 2 + docs.len() {
            let d = i - 2;
            assert(lines[i] == docs[d]);
            lemma_parse_doc_line(d as nat, paths[d], model[d].len());
        } else {
            let j = i - 2 - docs.len();
            assert(lines[i] == pl[j]);
            lemma_saved_posts_fit(model, j);
            lemma_parse_post_line(posts[j]);
        }
    }
    lemma_lines_text_join(lines);
    let all = lines.push(Seq::empty());
    assert forall|i: int| 0 <= i < all.len() implies free_of(#[trigger] all[i], '\n') by {
        if i < lines.len() {
            assert(all[i] == lines[i]);
        }
    }
    lemma_split_join(all, '\n');
    assert(all.last().len() == 0);
    assert(all.drop_last() =~= lines);
}

/// Reading the document and posting lines of a saved index gives back its
/// documents and postings.
proof fn lemma_read_saved_lines(paths: Seq<Seq<char>>, model: Seq<Seq<Seq<char>>>)
    requires
        storable(paths, model),
    ensures
        read_lines(doc_lines(paths, model) + all_posts(model, sorted_vocabulary(model)).map_values(
            |p: Post| post_line(p),
        )) == Some(Sections {
            paths,
            lengths: model.map_values(|r: Seq<Seq<char>>| r.len()),
            posts: all_posts(model, sorted_vocabulary(model)),
        }),
{
    let docs = doc_lines(paths, model);
    let lengths = model.map_values(|r: Seq<Seq<char>>| r.len());
    let posts = all_posts(model, sorted_vocabulary(model));
    let pl = posts.map_values(|p: Post| post_line(p));
    lemma_read_doc_lines(paths, model, docs.len() as int);
    assert(docs.take(docs.len() as int) =~= docs);
    assert(paths.take(paths.len() as int) =~= paths);
    assert(lengths.take(lengths.len() as int) =~= lengths);
    lemma_read_post_lines(paths, model, pl.len() as int);
    assert(pl.take(pl.len() as int) =~= pl);
    assert(posts.take(posts.len() as int) =~= posts);
}

proof fn lemma_read_doc_lines(paths: Seq<Seq<char>>, model: Seq<Seq<Seq<char>>>, k: int)
    requires
        storable(paths, model),
        0 <= k <= paths.len(),
    ensures
        read_lines(doc_lines(paths, model).take(k)) == Some(Sections {
            paths: paths.take(k),
            lengths: model.map_values(|r: Seq<Seq<char>>| r.len()).take(k),
            posts: Seq::empty(),
        }),
    decreases k,
{
    let docs = doc_lines(paths, model);
    let lengths = model.map_values(|r: Seq<Seq<char>>| r.len());
    if k == 0 {
        assert(docs.take(0) =~= Seq::<Seq<char>>::empty());
        assert(paths.take(0) =~= Seq::<Seq<char>>::empty());
        assert(lengths.take(0) =~= Seq::<nat>::empty());
    } else {
        lemma_read_doc_lines(paths, model, k - 1);
        assert(docs.take(k).drop_last() =~= docs.take(k - 1));
        assert(docs.take(k).last() == doc_line((k - 1) as nat, paths[k - 1], model[k - 1].len()));
        lemma_parse_doc_line((k - 1) as nat, paths[k - 1], model[k - 1].len());
        assert(paths.take(k) =~= paths.take(k - 1).push(paths[k - 1]));
        assert(lengths.take(k) =~= lengths.take(k - 1).push(model[k - 1].len()));
    }
}

proof fn lemma_read_post_lines(paths: Seq<Seq<char>>, model: Seq<Seq<Seq<char>>>, j: int)
    requires
        storable(paths, model),
        0 <= j <= all_posts(model, sorted_vocabulary(model)).len(),
    ensures
        read_lines(doc_lines(paths, model) + all_posts(model, sorted_vocabulary(model)).map_values(
            |p: Post| post_line(p),
        ).take(j)) == Some(Sections {
            paths,
            lengths: model.map_values(|r: Seq<Seq<char>>| r.len()),
            posts: all_posts(model, sorted_vocabulary(model)).take(j),
        }),
    decreases j,
{
    let docs = doc_lines(paths, model);
    let lengths = model.map_values(|r: Seq<Seq<char>>| r.len());
    let posts = all_posts(model, sorted_vocabulary(model));
    let pl = posts.map_values(|p: Post| post_line(p));
    if j == 0 {
        lemma_read_doc_lines(paths, model, docs.len() as int);
        assert(docs + pl.take(0) =~= docs.take(docs.len() as int));
        assert(paths.take(paths.len() as int) =~= paths);
        assert(lengths.take(lengths.len() as int) =~= lengths);
        assert(posts.take(0) =~= Seq::<Post>::empty());
    } else {
        lemma_read_post_lines(paths, model, j - 1);
        assert((docs + pl.take(j)).drop_last() =~= docs + pl.take(j - 1));
        assert((docs + pl.take(j)).last() == post_line(posts[j - 1]));
        lemma_saved_posts_fit(model, j - 1);
        let x = posts[j - 1];
        assert forall|i: int| 0 <= i < x.positions.len() implies #[trigger] x.positions[i] <= usize::MAX by {
            assert(x.positions[i] < model[x.doc as int].len());
        }
        lemma_parse_post_line(x);
        assert(posts.take(j) =~= posts.take(j - 1).push(x));
    }
}

/// The slots agree with the model: same shape, and a filled slot holds the
/// term of its token.
pub open spec fn slots_agree(slots: Seq<Seq<Option<Seq<char>>>>, model: Seq<Seq<Seq<char>>>) -> bool {
    &&& slots.len() == model.len()
    &&& forall|d: int| 0 <= d < model.len() ==> (#[trigger] slots[d]).len() == model[d].len()
    &&& forall|d: int, q: int|
        0 <= d < model.len() && 0 <= q < model[d].len() && (#[trigger] slots[d][q]) is Some ==> slots[d][q]
            == Some(model[d][q])
}

/// Every position of the postings is filled.
pub open spec fn posts_placed(slots: Seq<Seq<Option<Seq<char>>>>, posts: Seq<Post>) -> bool {
    forall|j: int, i: int|
        #![trigger posts[j].positions[i]]
        0 <= j < posts.len() && 0 <= i < posts[j].positions.len() ==> slots[posts[j].doc as int][posts[j].positions[i] as int] is Some
}

proof fn lemma_place_saved_posts(model: Seq<Seq<Seq<char>>>, j: int) -> (slots: Seq<Seq<Option<Seq<char>>>>)
    requires
        0 <= j <= all_posts(model, sorted_vocabulary(model)).len(),
    ensures
        place_all(model.map_values(|r: Seq<Seq<char>>| r.len()), all_posts(model, sorted_vocabulary(model)).take(j))
            == Some(slots),
        slots_agree(slots, model),
        posts_placed(slots, all_posts(model, sorted_vocabulary(model)).take(j)),
    decreases j,
{
    let lengths = model.map_values(|r: Seq<Seq<char>>| r.len());
    let posts = all_posts(model, sorted_vocabulary(model));
    if j == 0 {
        assert(posts.take(0) =~= Seq::<Post>::empty());
        let slots = empty_slots(lengths);
        assert(slots_agree(slots, model));
        slots
    } else {
        let s0 = lemma_place_saved_posts(model, j - 1);
        assert(posts.take(j).drop_last() =~= posts.take(j - 1));
        let x = posts[j - 1];
        assert(posts.take(j).last() == x);
        lemma_saved_posts_fit(model, j - 1);
        let d = x.doc as int;
        let row = s0[d];
        let new_row = Seq::new(row.len(), |q: int| if x.positions.contains(q as nat) {
            Some(x.term)
        } else {
            row[q]
        });
        let slots = s0.update(d, new_row);
        assert(place(s0, x) == Some(slots));
        assert forall|e: int, q: int|
            0 <= e < model.len() && 0 <= q < model[e].len() && (#[trigger] slots[e][q]) is Some implies slots[e][q]
                == Some(model[e][q]) by {
            if e == d && x.positions.contains(q as nat) {
                let i = choose|i: int| 0 <= i < x.positions.len() && x.positions[i] == q as nat;
                assert(model[d][x.positions[i] as int] == x.term);
            }
        }
        assert(slots_agree(slots, model));
        let pt = posts.take(j);
        assert forall|m: int, i: int|
            #![trigger pt[m].positions[i]]
            0 <= m < pt.len() && 0 <= i < pt[m].positions.len() implies slots[pt[m].doc as int][pt[m].positions[i] as int] is Some by {
            if m < j - 1 {
                let y = pt[m];
                assert(y == posts.take(j - 1)[m]);
                assert(y == posts[m]);
                lemma_saved_posts_fit(model, m);
                let e = y.doc as int;
                let q = y.positions[i] as int;
                assert(q < model[e].len());
                assert(s0[e][q] is Some);
                if e == d {
                    assert(slots[e] == new_row);
                    assert(new_row[q] is Some);
                } else {
                    assert(slots[e] == s0[e]);
                }
            } else {
                assert(pt[m] == x);
                assert(x.positions.contains(x.positions[i]));
            }
        }
        slots
    }
}

/// The saved index of documents and their token terms reads back as those
/// documents and terms, with the average written in it.
pub proof fn lemma_decode_saved_text(paths: Seq<Seq<char>>, model: Seq<Seq<Seq<char>>>, average: Seq<char>)
    requires
        storable(paths, model),
        free_of(average, '\n'),
    ensures
        decode_text(saved_text(paths, model, average)) == Some(SavedIndex { paths, model, average }),
{
    let text = saved_text(paths, model, average);
    let lines = saved_lines(paths, model, average);
    lemma_saved_text_lines(paths, model, average);
    assert(text_lines(text) == lines);
    let docs = doc_lines(paths, model);
    let posts = all_posts(model, sorted_vocabulary(model));
    let pl = posts.map_values(|p: Post| post_line(p));
    assert(lines[0] == header_line());
    let avg_line = average_prefix() + average;
    assert(lines[1] == avg_line);
    assert(avg_line.take(4) =~= average_prefix());
    assert(avg_line.skip(4) =~= average);
    assert(lines.skip(2) =~= docs + pl);
    lemma_read_saved_lines(paths, model);
    let lengths = model.map_values(|r: Seq<Seq<char>>| r.len());
    let slots = lemma_place_saved_posts(model, posts.len() as int);
    assert(posts.take(posts.len() as int) =~= posts);
    lemma_sorted_vocabulary(model);
    let sv = sorted_vocabulary(model);
    assert forall|d: int, q: int| 0 <= d < slots.len() && 0 <= q < slots[d].len() implies (#[trigger] slots[d][q]) is Some by {
        let t = model[d][q];
        assert(model[d].contains(t));
        assert(in_vocabulary(model, t));
        assert(sv.contains(t));
        let i = choose|i: int| 0 <= i < sv.len() && sv[i] == t;
        lemma_docs_containing(model, t);
        assert(docs_containing(model, t).contains(d));
        let k = choose|k: int| 0 <= k < docs_containing(model, t).len() && docs_containing(model, t)[k] == d;
        let j = lemma_all_posts_member(model, sv, i, k);
        lemma_term_post(model, t, k);
        let x = posts[j];
        assert(x.positions.contains(q as nat));
        let m = choose|m: int| 0 <= m < x.positions.len() && x.positions[m] == q as nat;
        assert(slots[x.doc as int][x.positions[m] as int] is Some);
    }
    assert(slot_terms(slots) =~= model) by {
        assert forall|d: int| 0 <= d < model.len() implies #[trigger] slot_terms(slots)[d] == model[d] by {
            assert(slot_terms(slots)[d] =~= model[d]) by {
                assert forall|q: int| 0 <= q < model[d].len() implies slot_terms(slots)[d][q] == model[d][q] by {
                    assert(slots[d][q] is Some);
                }
            }
        }
    }
}

/// The paths of documents.
pub open spec fn doc_paths(docs: Seq<DocumentView>) -> Seq<Seq<char>> {
    docs.map_values(|d: DocumentView| d.path)
}

proof fn lemma_join4(a: Seq<char>, b: Seq<char>, c: Seq<char>, d: Seq<char>, sep: char)
    ensures
        join_with(seq![a, b, c, d], sep) == a + seq![sep] + b + seq![sep] + c + seq![sep] + d,
{
    let f = seq![a, b, c, d];
    assert(f.drop_last() =~= seq![a, b, c]);
    assert(seq![a, b, c].drop_last() =~= seq![a, b]);
    assert(seq![a, b].drop_last() =~= seq![a]);
    assert(join_with(seq![a], sep) == a);
    assert(join_with(seq![a, b], sep) == join_with(seq![a], sep) + seq![sep] + b);
    assert(join_with(seq![a, b, c], sep) == join_with(seq![a, b], sep) + seq![sep] + c);
    assert(join_with(f, sep) == join_with(seq![a, b, c], sep) + seq![sep] + d);
    assert(join_with(f, sep) =~= a + seq![sep] + b + seq![sep] + c + seq![sep] + d);
}

/// Appends the chars of `v`.
fn push_chars(out: &mut String, v: &Vec<char>)
    ensures
        final(out)@ == old(out)@ + v@,
{
    let ghost start = out@;
    for i in 0..v.len()
        invariant
            out@ == start + v@.take(i as int),
    {
        push_char(out, v[i]);
        assert(v@.take(i + 1) =~= v@.take(i as int).push(v@[i as int]));
        assert(out@ =~= start + v@.take(i + 1));
    }
    assert(v@.take(v@.len() as int) =~= v@);
}

/// Appends a tag.
fn push_tag(out: &mut String, tag: &str)
    ensures
        final(out)@ == old(out)@ + tag@,
{
    out.append(tag);
}

/// Appends positions separated by commas.
fn push_positions(out: &mut String, positions: &Vec<usize>)
    ensures
        final(out)@ == old(out)@ + positions_text(positions@.map_values(|p: usize| p as nat)),
{
    let ghost start = out@;
    let ghost parts = positions@.map_values(|p: usize| p as nat).map_values(|p: nat| decimal_text(p));
    for i in 0..positions.len()
        invariant
            parts == positions@.map_values(|p: usize| p as nat).map_values(|p: nat| decimal_text(p)),
            out@ == start + join_with(parts.take(i as int), ','),
    {
        let ghost before = out@;
        if i > 0 {
            push_char(out, ',');
        }
        push_decimal(out, positions[i] as u64);
        proof {
            let t = parts.take(i + 1);
            assert(t.drop_last() =~= parts.take(i as int));
            assert(t.last() == decimal_text(positions@[i as int] as nat));
            if i == 0 {
                assert(join_with(t, ',') == t[0]);
                assert(join_with(parts.take(0), ',') =~= Seq::<char>::empty());
            }
            assert(out@ =~= start + join_with(t, ','));
        }
    }
    assert(parts.take(positions@.len() as int) =~= parts);
}

/// Appends the line of one document and its newline.
fn push_doc_line(out: &mut String, id: usize, path: &str, length: usize)
    ensures
        final(out)@ == old(out)@ + doc_line(id as nat, path@, length as nat) + seq!['\n'],
{
    let ghost start = out@;
    proof {
        reveal_strlit("DOC");
        lemma_join4(doc_tag(), decimal_text(id as nat), escape_field(path@), decimal_text(length as nat), '\t');
    }
    push_tag(out, "DOC");
    push_char(out, '\t');
    push_decimal(out, id as u64);
    push_char(out, '\t');
    let escaped = escape_chars(&chars_of(path));
    push_chars(out, &escaped);
    push_char(out, '\t');
    push_decimal(out, length as u64);
    push_char(out, '\n');
    assert("DOC"@ =~= doc_tag());
    assert(out@ =~= start + doc_line(id as nat, path@, length as nat) + seq!['\n']);
}

/// The posting of an entry of the index.
pub(crate) open spec fn posting_post(term: Seq<char>, p: Posting) -> Post {
    Post { term, doc: p.doc_id as nat, positions: p.positions@.map_values(|q: usize| q as nat) }
}

/// Appends the line of one posting and its newline.
fn push_post_line(out: &mut String, escaped_term: &Vec<char>, Ghost(term): Ghost<Seq<char>>, posting: &Posting)
    requires
        escaped_term@ == escape_field(term),
    ensures
        final(out)@ == old(out)@ + post_line(posting_post(term, *posting)) + seq!['\n'],
{
    let ghost start = out@;
    let ghost x = posting_post(term, *posting);
    proof {
        reveal_strlit("POST");
        lemma_join4(post_tag(), escape_field(term), decimal_text(x.doc), positions_text(x.positions), '\t');
    }
    push_tag(out, "POST");
    push_char(out, '\t');
    push_chars(out, escaped_term);
    push_char(out, '\t');
    push_decimal(out, posting.doc_id as u64);
    push_char(out, '\t');
    push_positions(out, &posting.positions);
    push_char(out, '\n');
    assert("POST"@ =~= post_tag());
    assert(out@ =~= start + post_line(x) + seq!['\n']);
}

proof fn lemma_lines_text_push(lines: Seq<Seq<char>>, x: Seq<char>)
    ensures
        lines_text(lines.push(x)) == lines_text(lines) + x + seq!['\n'],
{
    assert(lines.push(x).drop_last() =~= lines);
}

/// Writes an engine in the index format, with `average` written as the
/// average document length.
pub fn encode_engine(engine: &SearchEngine, average: &str) -> (text: String)
    requires
        engine.wf(),
    ensures
        text@ == saved_text(doc_paths(engine.docs()), engine.doc_terms(), average@),
{
    let ghost paths = doc_paths(engine.docs());
    let ghost model = engine.doc_terms();
    let ghost sv = sorted_vocabulary(model);
    let ghost head = seq![header_line(), average_prefix() + average@];
    proof {
        engine.lemma_docs_agree();
        reveal_strlit("MSE1");
        reveal_strlit("AVG\t");
    }
    let mut out = String::new();
    push_tag(&mut out, "MSE1");
    push_char(&mut out, '\n');
    push_tag(&mut out, "AVG\t");
    push_tag(&mut out, average);
    push_char(&mut out, '\n');
    proof {
        assert("MSE1"@ =~= header_line());
        assert("AVG\t"@ =~= average_prefix());
        lemma_lines_text_push(Seq::empty(), header_line());
        lemma_lines_text_push(seq![header_line()], average_prefix() + average@);
        assert(seq![header_line()].push(average_prefix() + average@) =~= head);
        assert(Seq::<Seq<char>>::empty().push(header_line()) =~= seq![header_line()]);
        assert(lines_text(Seq::<Seq<char>>::empty()) =~= Seq::<char>::empty());
        assert(out@ =~= lines_text(head));
    }
    let documents = engine.documents();
    let ghost docs = doc_lines(paths, model);
    for d in 0..documents.len()
        invariant
            documents@.len() == paths.len(),
            paths == doc_paths(engine.docs()),
            model == engine.doc_terms(),
            docs == doc_lines(paths, model),
            engine.docs().len() == model.len(),
            forall|e: int| 0 <= e < documents@.len() ==> (#[trigger] documents@[e])@ == engine.docs()[e],
            forall|e: int| 0 <= e < engine.docs().len() ==> (#[trigger] engine.docs()[e]).length == model[e].len(),
            out@ == lines_text(head + docs.take(d as int)),
    {
        let doc = &documents[d];
        assert(doc@ == engine.docs()[d as int]);
        push_doc_line(&mut out, d, doc.path.as_str(), doc.length);
        proof {
            assert(docs[d as int] == doc_line(d as nat, paths[d as int], model[d as int].len()));
            lemma_lines_text_push(head + docs.take(d as int), docs[d as int]);
            assert((head + docs.take(d as int)).push(docs[d as int]) =~= head + docs.take(d + 1));
        }
    }
    assert(docs.take(documents@.len() as int) =~= docs);
    let ghost prefix = head + docs;
    let n = engine.entry_count();
    for i in 0..n
        invariant
            n == sv.len(),
            engine.wf(),
            model == engine.doc_terms(),
            sv == sorted_vocabulary(model),
            out@ == lines_text(prefix + all_posts(model, sv.take(i as int)).map_values(|p: Post| post_line(p))),
    {
        let term = engine.entry_term(i);
        let escaped = escape_chars(&chars_of(term.as_str()));
        let postings = engine.entry_postings(i);
        let ghost t = sv[i as int];
        let ghost done = prefix + all_posts(model, sv.take(i as int)).map_values(|p: Post| post_line(p));
        let ghost tp = term_posts(model, t);
        proof {
            lemma_docs_containing(model, t);
            assert(posting_docs(postings@).len() == postings@.len());
            assert forall|k: int| 0 <= k < postings@.len() implies posting_post(t, #[trigger] postings@[k]) == tp[k] by {
                assert(posting_docs(postings@)[k] == postings@[k].doc_id as int);
                let d = docs_containing(model, t)[k];
                assert(usizes_view(postings@[k].positions@) == positions_of(model[d], t));
                assert(postings@[k].positions@.map_values(|q: usize| q as nat) =~= nats(positions_of(model[d], t)));
            }
        }
        for j in 0..postings.len()
            invariant
                escaped@ == escape_field(t),
                tp == term_posts(model, t),
                postings@.len() == tp.len(),
                forall|k: int| 0 <= k < postings@.len() ==> posting_post(t, #[trigger] postings@[k]) == tp[k],
                out@ == lines_text(done + tp.take(j as int).map_values(|p: Post| post_line(p))),
        {
            push_post_line(&mut out, &escaped, Ghost(t), &postings[j]);
            proof {
                let x = tp[j as int];
                lemma_lines_text_push(done + tp.take(j as int).map_values(|p: Post| post_line(p)), post_line(x));
                assert((done + tp.take(j as int).map_values(|p: Post| post_line(p))).push(post_line(x))
                    =~= done + tp.take(j + 1).map_values(|p: Post| post_line(p)));
            }
        }
        proof {
            assert(tp.take(tp.len() as int) =~= tp);
            assert(sv.take(i + 1).drop_last() =~= sv.take(i as int));
            assert(sv.take(i + 1).last() == t);
            assert(all_posts(model, sv.take(i + 1)) == all_posts(model, sv.take(i as int)) + tp);
            assert(prefix + all_posts(model, sv.take(i + 1)).map_values(|p: Post| post_line(p))
                =~= done + tp.map_values(|p: Post| post_line(p)));
        }
    }
    proof {
        assert(sv.take(sv.len() as int) =~= sv);
        assert(prefix + all_posts(model, sv).map_values(|p: Post| post_line(p)) =~= saved_lines(paths, model, average@));
    }
    out
}

/// The metadata of a document read back from a saved index. Its content is
/// not saved, so it is empty; its extension and title are inferred from its
/// path.
pub open spec fn restored_document(id: nat, path: Seq<char>, length: nat) -> DocumentView {
    DocumentView {
        id,
        path,
        length,
        content: Seq::empty(),
        extension: normalized_extension(path_extension(path)),
        title: inferred_title(path, Seq::empty()),
        modified_unix_timestamp_secs: None,
    }
}

/// The metadata of the documents read back from a saved index.
pub open spec fn restored_docs(paths: Seq<Seq<char>>, model: Seq<Seq<Seq<char>>>) -> Seq<DocumentView> {
    Seq::new(paths.len(), |d: int| restored_document(d as nat, paths[d], model[d].len()))
}

/// A posting read from a saved index.
struct PostRecord {
    term: String,
    doc: usize,
    positions: Vec<usize>,
}

spec fn record_post(r: PostRecord) -> Post {
    Post { term: r.term@, doc: r.doc as nat, positions: r.positions@.map_values(|p: usize| p as nat) }
}

/// A line read from a saved index.
enum LineRecord {
    Doc { id: usize, path: String, length: usize },
    Posting(PostRecord),
}

spec fn record_line(r: LineRecord) -> IndexLine {
    match r {
        LineRecord::Doc { id, path, length } => IndexLine::Doc { id: id as nat, path: path@, length: length as nat },
        LineRecord::Posting(p) => IndexLine::Posting(record_post(p)),
    }
}

spec fn rows_view(v: Seq<Vec<char>>) -> Seq<Seq<char>> {
    v.map_values(|p: Vec<char>| p@)
}

/// Whether two char sequences are equal.
pub(crate) fn same_chars(a: &Vec<char>, b: &Vec<char>) -> (r: bool)
    ensures
        r == (a@ == b@),
{
    if a.len() != b.len() {
        return false;
    }
    let mut i: usize = 0;
    while i < a.len()
        invariant
            a@.len() == b@.len(),
            i <= a@.len(),
            forall|j: int| 0 <= j < i ==> a@[j] == b@[j],
        decreases a@.len() - i,
    {
        if a[i] != b[i] {
            return false;
        }
        i = i + 1;
    }
    assert(a@ =~= b@);
    true
}

fn tag_chars(tag: &str) -> (v: Vec<char>)
    ensures
        v@ == tag@,
{
    chars_of(tag)
}

/// Reads the positions of a posting line.
fn read_positions(v: &Vec<char>) -> (r: Option<Vec<usize>>)
    ensures
        match r {
            Some(ps) => positions_field(v@) == Some(ps@.map_values(|p: usize| p as nat)),
            None => positions_field(v@) is None,
        },
{
    let pieces = split_chars(v, ',');
    let ghost pv = split_on(v@, ',');
    assert(rows_view(pieces@) == pv);
    let mut ps: Vec<usize> = Vec::new();
    let mut i: usize = 0;
    while i < pieces.len()
        invariant
            i <= pieces@.len(),
            pv == rows_view(pieces@),
            pv == split_on(v@, ','),
            ps@.len() == i,
            forall|j: int| 0 <= j < i ==> decimal_field(#[trigger] pv[j]) == Some(ps@[j] as nat),
        decreases pieces@.len() - i,
    {
        assert(pieces@[i as int]@ == pv[i as int]);
        match parse_decimal(&pieces[i]) {
            Some(n) => {
                ps.push(n);
            },
            None => {
                assert(decimal_field(pv[i as int]) is None);
                assert(!all_decimal(pv));
                return None;
            },
        }
        i = i + 1;
    }
    assert(all_decimal(pv));
    assert(pv.map_values(|p: Seq<char>| decimal_field(p).unwrap()) =~= ps@.map_values(|p: usize| p as nat));
    Some(ps)
}

/// The string holding the chars of `v`.
pub(crate) fn string_of(v: &Vec<char>) -> (s: String)
    ensures
        s@ == v@,
{
    let s = string_from_chars(v, 0, v.len());
    assert(v@.subrange(0, v@.len() as int) =~= v@);
    s
}

/// Reads one document or posting line.
fn read_line(l: &Vec<char>) -> (r: Option<LineRecord>)
    ensures
        match r {
            Some(x) => parse_line(l@) == Some(record_line(x)),
            None => parse_line(l@) is None,
        },
{
    let fields = split_chars(l, '\t');
    let ghost f = split_on(l@, '\t');
    assert(rows_view(fields@) == f);
    if fields.len() != 4 {
        return None;
    }
    assert(fields@[0]@ == f[0] && fields@[1]@ == f[1] && fields@[2]@ == f[2] && fields@[3]@ == f[3]);
    proof {
        reveal_strlit("DOC");
        reveal_strlit("POST");
    }
    let doc = tag_chars("DOC");
    let post = tag_chars("POST");
    assert(doc@ =~= doc_tag());
    assert(post@ =~= post_tag());
    if same_chars(&fields[0], &doc) {
        match (parse_decimal(&fields[1]), unescape_chars(&fields[2]), parse_decimal(&fields[3])) {
            (Some(id), Some(path), Some(length)) => Some(LineRecord::Doc { id, path: string_of(&path), length }),
            _ => None,
        }
    } else if same_chars(&fields[0], &post) {
        match (unescape_chars(&fields[1]), parse_decimal(&fields[2]), read_positions(&fields[3])) {
            (Some(term), Some(doc), Some(positions)) => Some(
                LineRecord::Posting(PostRecord { term: string_of(&term), doc, positions }),
            ),
            _ => None,
        }
    } else {
        None
    }
}

fn parse_error(message: &str) -> (e: SearchError)
    ensures
        e matches SearchError::Parse(m) && m@ == message@,
{
    SearchError::Parse(message.to_owned())
}

spec fn slots_view(slots: Seq<Vec<Option<String>>>) -> Seq<Seq<Option<Seq<char>>>> {
    slots.map_values(|row: Vec<Option<String>>| row@.map_values(|x: Option<String>| opt_view(x)))
}

/// Puts the term of a posting into its slots; false when the posting points
/// outside the documents.
fn place_record(slots: &mut Vec<Vec<Option<String>>>, p: &PostRecord) -> (placed: bool)
    ensures
        placed == place(slots_view(old(slots)@), record_post(*p)) is Some,
        placed ==> place(slots_view(old(slots)@), record_post(*p)) == Some(slots_view(final(slots)@)),
{
    let ghost x = record_post(*p);
    let ghost sv0 = slots_view(slots@);
    if p.doc >= slots.len() {
        return false;
    }
    let d = p.doc;
    let row_len = slots[d].len();
    assert(sv0[d as int].len() == slots@[d as int]@.len());
    let mut i: usize = 0;
    while i < p.positions.len()
        invariant
            i <= p.positions@.len(),
            d == p.doc,
            sv0 == slots_view(old(slots)@),
            d < sv0.len(),
            row_len == sv0[d as int].len(),
            x == record_post(*p),
            forall|k: int| 0 <= k < i ==> #[trigger] x.positions[k] < row_len,
        decreases p.positions@.len() - i,
    {
        if p.positions[i] >= row_len {
            assert(x.positions[i as int] == p.positions@[i as int] as nat);
            assert(x.doc == d as nat);
            assert(!(x.positions[i as int] < sv0[x.doc as int].len()));
            assert(!(forall|k2: int| 0 <= k2 < x.positions.len() ==> #[trigger] x.positions[k2] < sv0[x.doc as int].len()));
            assert(place(sv0, x) is None);
            return false;
        }
        assert(x.positions[i as int] == p.positions@[i as int] as nat);
        i = i + 1;
    }
    let ghost row0 = sv0[d as int];
    let mut k: usize = 0;
    while k < p.positions.len()
        invariant
            k <= p.positions@.len(),
            d == p.doc,
            d < slots@.len(),
            slots@.len() == sv0.len(),
            x == record_post(*p),
            row_len == row0.len(),
            row0 == sv0[d as int],
            slots@[d as int]@.len() == row_len,
            forall|k2: int| 0 <= k2 < p.positions@.len() ==> #[trigger] x.positions[k2] < row_len,
            forall|e: int| 0 <= e < sv0.len() && e != d ==> #[trigger] slots_view(slots@)[e] == sv0[e],
            slots_view(slots@)[d as int] == Seq::new(row_len as nat, |q: int| if x.positions.take(k as int).contains(q as nat) {
                Some(x.term)
            } else {
                row0[q]
            }),
        decreases p.positions@.len() - k,
    {
        let q = p.positions[k];
        assert(x.positions[k as int] == q as nat);
        let ghost before = slots_view(slots@);
        let ghost before_rows = slots@;
        let t = p.term.clone();
        slots[d][q] = Some(t);
        proof {
            assert(slots@[d as int]@ == before_rows[d as int]@.update(q as int, Some(t)));
            assert(slots_view(slots@)[d as int] == before[d as int].update(q as int, Some(x.term)));
            assert forall|e: int| 0 <= e < sv0.len() && e != d implies #[trigger] slots_view(slots@)[e] == sv0[e] by {
                assert(slots_view(slots@)[e] == before[e]);
            }
            let tk = x.positions.take(k + 1);
            assert(tk =~= x.positions.take(k as int).push(q as nat));
            assert(tk[k as int] == q as nat);
            assert(tk.contains(q as nat));
            assert(slots_view(slots@)[d as int] =~= Seq::new(row_len as nat, |r: int| if tk.contains(r as nat) {
                Some(x.term)
            } else {
                row0[r]
            })) by {
                assert forall|r: int| 0 <= r < row_len implies #[trigger] slots_view(slots@)[d as int][r] == (if tk.contains(r as nat) {
                    Some(x.term)
                } else {
                    row0[r]
                }) by {
                    if x.positions.take(k as int).contains(r as nat) {
                        let m = choose|m: int| 0 <= m < k && x.positions.take(k as int)[m] == r as nat;
                        assert(tk[m] == r as nat);
                    }
                    if tk.contains(r as nat) && r != q {
                        let m = choose|m: int| 0 <= m < k + 1 && tk[m] == r as nat;
                        assert(x.positions.take(k as int)[m] == r as nat);
                    }
                }
            }
        }
        k = k + 1;
    }
    proof {
        assert(x.positions.take(x.positions.len() as int) =~= x.positions);
        let expected = sv0.update(d as int, Seq::new(row0.len(), |q: int| if x.positions.contains(q as nat) {
            Some(x.term)
        } else {
            row0[q]
        }));
        assert(slots_view(slots@) =~= expected);
    }
    true
}

/// Saving a well-formed engine and reading the text back gives the ids,
/// paths and lengths of its documents and all their token terms again, and
/// the average as it was written, when that has no newline.
pub proof fn lemma_saved_engine_reloads(engine: SearchEngine, average: Seq<char>)
    requires
        engine.wf(),
        free_of(average, '\n'),
    ensures
        decode_text(saved_text(doc_paths(engine.docs()), engine.doc_terms(), average)) == Some(
            SavedIndex { paths: doc_paths(engine.docs()), model: engine.doc_terms(), average },
        ),
        restored_docs(doc_paths(engine.docs()), engine.doc_terms()).len() == engine.docs().len(),
        forall|d: int|
            0 <= d < engine.docs().len() ==> {
                let r = #[trigger] restored_docs(doc_paths(engine.docs()), engine.doc_terms())[d];
                &&& r.id == engine.docs()[d].id
                &&& r.path == engine.docs()[d].path
                &&& r.length == engine.docs()[d].length
            },
{
    engine.lemma_counts_fit();
    engine.lemma_docs_agree();
    lemma_decode_saved_text(doc_paths(engine.docs()), engine.doc_terms(), average);
}

/// Reads the document and posting lines.
fn read_sections(lines: &Vec<Vec<char>>, from: usize) -> (r: Option<(Vec<String>, Vec<usize>, Vec<PostRecord>)>)
    requires
        from <= lines@.len(),
    ensures
        match r {
            Some((paths, lengths, posts)) => read_lines(rows_view(lines@).skip(from as int)) == Some(Sections {
                paths: strings_view(paths@),
                lengths: lengths@.map_values(|l: usize| l as nat),
                posts: posts@.map_values(|p: PostRecord| record_post(p)),
            }),
            None => read_lines(rows_view(lines@).skip(from as int)) is None,
        },
{
    let ghost body = rows_view(lines@).skip(from as int);
    let mut paths: Vec<String> = Vec::new();
    let mut lengths: Vec<usize> = Vec::new();
    let mut posts: Vec<PostRecord> = Vec::new();
    let n = lines.len();
    assert(body.take(0) =~= Seq::<Seq<char>>::empty());
    assert(strings_view(paths@) =~= Seq::<Seq<char>>::empty());
    assert(lengths@.map_values(|l: usize| l as nat) =~= Seq::<nat>::empty());
    assert(posts@.map_values(|p: PostRecord| record_post(p)) =~= Seq::<Post>::empty());
    for k in from..n
        invariant
            n == lines@.len(),
            from <= n,
            body == rows_view(lines@).skip(from as int),
            read_lines(body.take(k - from)) == Some(Sections {
                paths: strings_view(paths@),
                lengths: lengths@.map_values(|l: usize| l as nat),
                posts: posts@.map_values(|p: PostRecord| record_post(p)),
            }),
    {
        let ghost prior = body.take(k - from);
        assert(body.take(k - from + 1).drop_last() =~= prior);
        assert(body.take(k - from + 1).last() == lines@[k as int]@);
        let ghost old_paths = paths@;
        let ghost old_lengths = lengths@;
        let ghost old_posts = posts@;
        match read_line(&lines[k]) {
            Some(LineRecord::Doc { id, path, length }) => {
                if id != paths.len() {
                    proof {
                        lemma_read_lines_prefix(body, k - from + 1);
                    }
                    return None;
                }
                let ghost pv = path@;
                paths.push(path);
                lengths.push(length);
                assert(strings_view(paths@) =~= strings_view(old_paths).push(pv));
                assert(lengths@.map_values(|l: usize| l as nat) =~= old_lengths.map_values(|l: usize| l as nat).push(length as nat));
            },
            Some(LineRecord::Posting(p)) => {
                let ghost x = record_post(p);
                posts.push(p);
                assert(posts@.map_values(|p: PostRecord| record_post(p)) =~= old_posts.map_values(
                    |p: PostRecord| record_post(p),
                ).push(x));
            },
            None => {
                proof {
                    lemma_read_lines_prefix(body, k - from + 1);
                }
                return None;
            },
        }
    }
    assert(body.take(n - from) =~= body);
    Some((paths, lengths, posts))
}

/// Empty slots for documents of the given lengths.
fn new_slots(lengths: &Vec<usize>) -> (slots: Vec<Vec<Option<String>>>)
    ensures
        slots_view(slots@) == empty_slots(lengths@.map_values(|l: usize| l as nat)),
{
    let ghost ls = lengths@.map_values(|l: usize| l as nat);
    let mut slots: Vec<Vec<Option<String>>> = Vec::new();
    for d in 0..lengths.len()
        invariant
            ls == lengths@.map_values(|l: usize| l as nat),
            slots_view(slots@) == empty_slots(ls.take(d as int)),
    {
        let mut row: Vec<Option<String>> = Vec::new();
        let row_len = lengths[d];
        for q in 0..row_len
            invariant
                row@.len() == q,
                forall|i: int| 0 <= i < q ==> (#[trigger] row@[i]) is None,
        {
            row.push(None);
        }
        assert(row@.map_values(|x: Option<String>| opt_view(x)) =~= Seq::new(row_len as nat, |i: int| None::<Seq<char>>));
        let ghost old_slots = slots@;
        slots.push(row);
        assert(ls.take(d + 1) =~= ls.take(d as int).push(row_len as nat));
        assert(slots_view(slots@) =~= slots_view(old_slots).push(Seq::new(row_len as nat, |i: int| None::<Seq<char>>)));
        assert(slots_view(slots@) =~= empty_slots(ls.take(d + 1)));
    }
    assert(ls.take(lengths@.len() as int) =~= ls);
    slots
}

/// Places all the postings into slots for documents of the given lengths.
fn place_posts(lengths: &Vec<usize>, posts: &Vec<PostRecord>) -> (r: Option<Vec<Vec<Option<String>>>>)
    ensures
        match r {
            Some(slots) => place_all(
                lengths@.map_values(|l: usize| l as nat),
                posts@.map_values(|p: PostRecord| record_post(p)),
            ) == Some(slots_view(slots@)),
            None => place_all(
                lengths@.map_values(|l: usize| l as nat),
                posts@.map_values(|p: PostRecord| record_post(p)),
            ) is None,
        },
{
    let ghost ls = lengths@.map_values(|l: usize| l as nat);
    let ghost ps = posts@.map_values(|p: PostRecord| record_post(p));
    let mut slots = new_slots(lengths);
    assert(ps.take(0) =~= Seq::<Post>::empty());
    for j in 0..posts.len()
        invariant
            ls == lengths@.map_values(|l: usize| l as nat),
            ps == posts@.map_values(|p: PostRecord| record_post(p)),
            place_all(ls, ps.take(j as int)) == Some(slots_view(slots@)),
    {
        assert(ps.take(j + 1).drop_last() =~= ps.take(j as int));
        assert(ps.take(j + 1).last() == record_post(posts@[j as int]));
        let ghost before = slots_view(slots@);
        assert(place_all(ls, ps.take(j + 1)) == place(before, record_post(posts@[j as int])));
        if !place_record(&mut slots, &posts[j]) {
            proof {
                lemma_place_all_prefix(ls, ps, j + 1);
            }
            return None;
        }
    }
    assert(ps.take(posts@.len() as int) =~= ps);
    Some(slots)
}

/// The terms of filled slots; none when a slot is empty.
fn collect_terms(slots: &Vec<Vec<Option<String>>>) -> (r: Option<Vec<Vec<String>>>)
    ensures
        match r {
            Some(terms) => all_filled(slots_view(slots@)) && terms@.len() == slots@.len() && forall|d: int|
                0 <= d < terms@.len() ==> strings_view(#[trigger] terms@[d]@) == slot_terms(slots_view(slots@))[d],
            None => !all_filled(slots_view(slots@)),
        },
{
    let ghost sv = slots_view(slots@);
    let ghost model = slot_terms(sv);
    let mut doc_terms: Vec<Vec<String>> = Vec::new();
    for d in 0..slots.len()
        invariant
            sv == slots_view(slots@),
            model == slot_terms(sv),
            doc_terms@.len() == d,
            forall|e: int, q: int| 0 <= e < d && 0 <= q < sv[e].len() ==> (#[trigger] sv[e][q]) is Some,
            forall|e: int| 0 <= e < d ==> strings_view(#[trigger] doc_terms@[e]@) == model[e],
    {
        let mut terms: Vec<String> = Vec::new();
        let row_len = slots[d].len();
        assert(sv[d as int] == slots@[d as int]@.map_values(|x: Option<String>| opt_view(x)));
        for q in 0..row_len
            invariant
                sv == slots_view(slots@),
                d < sv.len(),
                sv[d as int] == slots@[d as int]@.map_values(|x: Option<String>| opt_view(x)),
                row_len == sv[d as int].len(),
                terms@.len() == q,
                forall|i: int| 0 <= i < q ==> (#[trigger] sv[d as int][i]) is Some,
                forall|i: int| 0 <= i < q ==> (#[trigger] terms@[i])@ == sv[d as int][i].unwrap(),
        {
            match &slots[d][q] {
                Some(t) => {
                    terms.push(t.clone());
                },
                None => {
                    assert(sv[d as int][q as int] is None);
                    return None;
                },
            }
        }
        assert(strings_view(terms@) =~= model[d as int]);
        doc_terms.push(terms);
    }
    Some(doc_terms)
}

/// An engine of the documents with `paths` and token terms `doc_terms`;
/// none when there are more tokens than `usize` counts.
fn build_engine(paths: &Vec<String>, doc_terms: &Vec<Vec<String>>) -> (r: Option<SearchEngine>)
    requires
        paths@.len() == doc_terms@.len(),
    ensures
        ({
            let model = doc_terms@.map_values(|v: Vec<String>| strings_view(v@));
            match r {
                Some(e) => total_length(model) <= usize::MAX && e.wf() && e.doc_terms() == model && e.docs()
                    == restored_docs(strings_view(paths@), model),
                None => total_length(model) > usize::MAX,
            }
        }),
{
    let ghost model = doc_terms@.map_values(|v: Vec<String>| strings_view(v@));
    let ghost sec_paths = strings_view(paths@);
    let mut engine = SearchEngine::new();
    assert(model.take(0) =~= Seq::<Seq<Seq<char>>>::empty());
    assert(restored_docs(sec_paths, model).take(0) =~= Seq::<DocumentView>::empty());
    let mut total: usize = 0;
    for d in 0..doc_terms.len()
        invariant
            model == doc_terms@.map_values(|v: Vec<String>| strings_view(v@)),
            sec_paths == strings_view(paths@),
            paths@.len() == doc_terms@.len(),
            engine.wf(),
            engine.doc_terms() == model.take(d as int),
            engine.docs() == restored_docs(sec_paths, model).take(d as int),
            total == total_length(model.take(d as int)),
    {
        let terms = &doc_terms[d];
        let length = terms.len();
        assert(model.take(d + 1).drop_last() =~= model.take(d as int));
        assert(model[d as int] == strings_view(terms@));
        assert(total_length(model.take(d + 1)) == total + length);
        if total > usize::MAX - length {
            proof {
                lemma_total_length_prefix(model, d + 1);
            }
            return None;
        }
        proof {
            reveal_strlit("");
            assert(""@ =~= Seq::<char>::empty());
        }
        let meta = DocumentMeta::new(d, paths[d].as_str(), length, "");
        assert(meta@ == restored_document(d as nat, sec_paths[d as int], model[d as int].len()));
        engine.push_document(meta, terms);
        total = total + length;
        proof {
            assert(model.take(d + 1) =~= model.take(d as int).push(model[d as int]));
            assert(restored_docs(sec_paths, model).take(d + 1) =~= restored_docs(sec_paths, model).take(d as int).push(
                restored_document(d as nat, sec_paths[d as int], model[d as int].len()),
            ));
        }
    }
    assert(model.take(model.len() as int) =~= model);
    assert(restored_docs(sec_paths, model).take(model.len() as int) =~= restored_docs(sec_paths, model));
    Some(engine)
}

/// Reads an engine back from the text of a saved index. The documents get
/// their ids, paths and lengths from their lines and their token terms from
/// the postings; their content is not saved. A text that is not a saved
/// index is refused with a parse error that names the first check it fails.
pub fn decode_engine(text: &str) -> (r: Result<SearchEngine, SearchError>)
    ensures
        match decode_text(text@) {
            Some(saved) => r matches Ok(e) && e.wf() && e.doc_terms() == saved.model && e.docs() == restored_docs(
                saved.paths,
                saved.model,
            ),
            None => r matches Err(SearchError::Parse(message)) && message@ == decode_failure(text@),
        },
{
    let chars = chars_of(text);
    let mut lines = split_chars(&chars, '\n');
    proof {
        lemma_split_on_nonempty(text@, '\n');
    }
    let ghost pieces = split_on(text@, '\n');
    assert(rows_view(lines@) == pieces);
    if lines[lines.len() - 1].len() == 0 {
        lines.pop();
        assert(rows_view(lines@) =~= pieces.drop_last());
    }
    let ghost lv = text_lines(text@);
    assert(rows_view(lines@) == lv);
    if lines.len() < 2 {
        return Err(parse_error("missing index header"));
    }
    proof {
        reveal_strlit("MSE1");
        reveal_strlit("AVG\t");
    }
    let header = tag_chars("MSE1");
    assert(header@ =~= header_line());
    assert(lines@[0]@ == lv[0]);
    if !same_chars(&lines[0], &header) {
        return Err(parse_error("missing index header"));
    }
    assert(lines@[1]@ == lv[1]);
    if lines[1].len() < 4 {
        return Err(parse_error("missing average document length"));
    }
    let avg = tag_chars("AVG\t");
    assert(avg@ =~= average_prefix());
    let start = copy_range(&lines[1], 0, 4);
    assert(start@ =~= lv[1].take(4));
    if !same_chars(&start, &avg) {
        return Err(parse_error("missing average document length"));
    }
    let (paths, lengths, posts) = match read_sections(&lines, 2) {
        Some(sections) => sections,
        None => {
            return Err(parse_error("malformed index line"));
        },
    };
    proof {
        lemma_read_lines_shape(lv.skip(2));
    }
    let slots = match place_posts(&lengths, &posts) {
        Some(slots) => slots,
        None => {
            return Err(parse_error("posting outside the documents"));
        },
    };
    proof {
        lemma_place_all_shape(lengths@.map_values(|l: usize| l as nat), posts@.map_values(|p: PostRecord| record_post(p)));
    }
    let doc_terms = match collect_terms(&slots) {
        Some(terms) => terms,
        None => {
            return Err(parse_error("a token has no term"));
        },
    };
    let ghost model = slot_terms(slots_view(slots@));
    assert(doc_terms@.map_values(|v: Vec<String>| strings_view(v@)) =~= model);
    match build_engine(&paths, &doc_terms) {
        Some(engine) => Ok(engine),
        None => Err(parse_error("too many tokens")),
    }
}

/// Reading lines gives one length per path.
proof fn lemma_read_lines_shape(lines: Seq<Seq<char>>)
    ensures
        read_lines(lines) matches Some(sec) ==> sec.paths.len() == sec.lengths.len(),
    decreases lines.len(),
{
    if lines.len() > 0 {
        lemma_read_lines_shape(lines.drop_last());
    }
}

/// Placing postings keeps one row of slots per document, of its length.
proof fn lemma_place_all_shape(lengths: Seq<nat>, posts: Seq<Post>)
    ensures
        place_all(lengths, posts) matches Some(s) ==> s.len() == lengths.len() && forall|d: int|
            0 <= d < s.len() ==> (#[trigger] s[d]).len() == lengths[d],
    decreases posts.len(),
{
    if posts.len() > 0 {
        lemma_place_all_shape(lengths, posts.drop_last());
    }
}

/// When the first lines cannot be read, the whole text cannot.
proof fn lemma_read_lines_prefix(lines: Seq<Seq<char>>, m: int)
    requires
        0 <= m <= lines.len(),
        read_lines(lines.take(m)) is None,
    ensures
        read_lines(lines) is None,
    decreases lines.len() - m,
{
    if m < lines.len() {
        assert(lines.take(m + 1).drop_last() =~= lines.take(m));
        lemma_read_lines_prefix(lines, m + 1);
    } else {
        assert(lines.take(m) =~= lines);
    }
}

/// When the first postings cannot be placed, all of them cannot.
proof fn lemma_place_all_prefix(lengths: Seq<nat>, posts: Seq<Post>, m: int)
    requires
        0 <= m <= posts.len(),
        place_all(lengths, posts.take(m)) is None,
    ensures
        place_all(lengths, posts) is None,
    decreases posts.len() - m,
{
    if m < posts.len() {
        assert(posts.take(m + 1).drop_last() =~= posts.take(m));
        lemma_place_all_prefix(lengths, posts, m + 1);
    } else {
        assert(posts.take(m) =~= posts);
    }
}

/// The tokens of the first documents are at most all the tokens.
proof fn lemma_total_length_prefix(model: Seq<Seq<Seq<char>>>, k: int)
    requires
        0 <= k <= model.len(),
    ensures
        total_length(model.take(k)) <= total_length(model),
    decreases model.len() - k,
{
    if k < model.len() {
        lemma_total_length_prefix(model, k + 1);
        assert(model.take(k + 1).drop_last() =~= model.take(k));
    } else {
        assert(model.take(k) =~= model);
    }
}

} // verus!
