use vstd::prelude::*;

use crate::files::{character_data, html_state, XmlItemView};
use crate::lexer::{is_white_space, split_state, words};
use crate::model::{documents_containing, term_counts, DocumentView, ModelView};
use crate::timestamp::Timestamp;

verus! {

/// Taking a document out of a finite set of documents lowers the number of
/// documents that contain `t` by one if that document contains `t`, and
/// leaves it unchanged otherwise.
pub proof fn lemma_containing_after_remove(
    docs: Map<Seq<char>, DocumentView>,
    p: Seq<char>,
    t: Seq<char>,
)
    requires
        docs.dom().finite(),
        docs.contains_key(p),
    ensures
        documents_containing(docs.remove(p), t) + (if docs[p].tf.contains_key(t) {
            1int
        } else {
            0int
        }) == documents_containing(docs, t),
{
    let f = |q: Seq<char>| docs[q].tf.contains_key(t);
    let after = docs.remove(p);
    let g = |q: Seq<char>| after[q].tf.contains_key(t);
    let s = docs.dom().filter(f);
    docs.dom().lemma_len_filter(f);
    if docs[p].tf.contains_key(t) {
        assert(after.dom().filter(g) =~= s.remove(p));
    } else {
        assert(after.dom().filter(g) =~= s);
    }
}

/// Putting a document at a new path into a finite set of documents raises
/// the number of documents that contain `t` by one if it contains `t`, and
/// leaves it unchanged otherwise.
pub proof fn lemma_containing_after_insert(
    docs: Map<Seq<char>, DocumentView>,
    p: Seq<char>,
    d: DocumentView,
    t: Seq<char>,
)
    requires
        docs.dom().finite(),
        !docs.contains_key(p),
    ensures
        documents_containing(docs.insert(p, d), t) == documents_containing(docs, t) + (
        if d.tf.contains_key(t) {
            1int
        } else {
            0int
        }),
{
    let f = |q: Seq<char>| docs[q].tf.contains_key(t);
    let after = docs.insert(p, d);
    let g = |q: Seq<char>| after[q].tf.contains_key(t);
    let s = docs.dom().filter(f);
    docs.dom().lemma_len_filter(f);
    if d.tf.contains_key(t) {
        assert(after.dom().filter(g) =~= s.insert(p));
    } else {
        assert(after.dom().filter(g) =~= s);
    }
}

/// No more documents contain a term than there are documents.
pub proof fn lemma_containing_bounded(docs: Map<Seq<char>, DocumentView>, t: Seq<char>)
    requires
        docs.dom().finite(),
    ensures
        documents_containing(docs, t) <= docs.len(),
{
    docs.dom().lemma_len_filter(|q: Seq<char>| docs[q].tf.contains_key(t));
}

/// Taking a document out of the index keeps the document frequency table
/// in step with the documents.
pub proof fn law_remove_keeps_consistency(m: ModelView, path: Seq<char>)
    requires
        m.consistent(),
    ensures
        m.removed(path).consistent(),
{
    if m.docs.contains_key(path) {
        let r = m.removed(path);
        assert forall|t: Seq<char>| #[trigger]
            documents_containing(r.docs, t) == r.df_or(t, 0) by {
            lemma_containing_after_remove(m.docs, path, t);
            assert(documents_containing(m.docs, t) == m.df_or(t, 0));
        }
    }
}

/// Putting a document into the index keeps the document frequency table in
/// step with the documents.
pub proof fn law_add_keeps_consistency(
    m: ModelView,
    path: Seq<char>,
    last_modified: Timestamp,
    terms: Seq<Seq<char>>,
)
    requires
        m.consistent(),
    ensures
        m.added(path, last_modified, terms).consistent(),
{
    let base = m.removed(path);
    law_remove_keeps_consistency(m, path);
    let a = m.added(path, last_modified, terms);
    let d = DocumentView { tf: term_counts(terms), count: terms.len(), last_modified };
    assert forall|t: Seq<char>| #[trigger] documents_containing(a.docs, t) == a.df_or(t, 0) by {
        lemma_containing_after_insert(base.docs, path, d, t);
        assert(documents_containing(base.docs, t) == base.df_or(t, 0));
    }
}

/// The frequency of a term in a document is its number of occurrences
/// among the document's terms: a term has an entry exactly when it occurs.
pub proof fn law_term_counts_are_occurrences(terms: Seq<Seq<char>>, t: Seq<char>)
    ensures
        term_counts(terms).contains_key(t) <==> terms.contains(t),
        (if term_counts(terms).contains_key(t) {
            term_counts(terms)[t]
        } else {
            0
        }) == terms.to_multiset().count(t),
    decreases terms.len(),
{
    broadcast use vstd::seq_lib::group_to_multiset_ensures;

    if terms.len() == 0 {
        assert(terms.to_multiset() =~= vstd::multiset::Multiset::empty());
    } else {
        let before = terms.drop_last();
        law_term_counts_are_occurrences(before, t);
        assert(terms =~= before.push(terms.last()));
        if terms.contains(t) && t != terms.last() {
            let k = choose|k: int| 0 <= k < terms.len() && terms[k] == t;
            assert(before[k] == t);
        }
        if before.contains(t) {
            let k = choose|k: int| 0 <= k < before.len() && before[k] == t;
            assert(terms[k] == t);
        }
        assert(terms[terms.len() - 1] == terms.last());
    }
}

/// Once a file is indexed with its modification time, it needs no indexing
/// again until it is modified later than that.
pub proof fn law_indexed_document_is_current(
    m: ModelView,
    path: Seq<char>,
    last_modified: Timestamp,
    terms: Seq<Seq<char>>,
    later: Timestamp,
)
    ensures
        m.added(path, last_modified, terms).docs.contains_key(path),
        m.added(path, last_modified, terms).docs[path] == (DocumentView {
            tf: term_counts(terms),
            count: terms.len(),
            last_modified,
        }),
        !m.added(path, last_modified, terms).needs_reindexing(path, last_modified),
        m.added(path, last_modified, terms).needs_reindexing(path, later)
            == last_modified.spec_before(later),
{
}

/// A file that is not indexed needs indexing; in particular one that was
/// just taken out of the index.
pub proof fn law_removed_document_needs_reindexing(
    m: ModelView,
    path: Seq<char>,
    last_modified: Timestamp,
)
    ensures
        !m.docs.contains_key(path) ==> m.needs_reindexing(path, last_modified),
        m.removed(path).needs_reindexing(path, last_modified),
{
}

/// Taking out a document that is not indexed changes nothing.
pub proof fn law_remove_absent_is_noop(m: ModelView, path: Seq<char>)
    requires
        !m.docs.contains_key(path),
    ensures
        m.removed(path) == m,
{
}

/// Indexing or taking out the document at one path leaves the documents at
/// all other paths as they were.
pub proof fn law_other_documents_untouched(
    m: ModelView,
    path: Seq<char>,
    other: Seq<char>,
    last_modified: Timestamp,
    terms: Seq<Seq<char>>,
)
    requires
        path != other,
    ensures
        m.removed(path).docs.contains_key(other) == m.docs.contains_key(other),
        m.removed(path).docs[other] == m.docs[other],
        m.added(path, last_modified, terms).docs.contains_key(other) == m.docs.contains_key(other),
        m.added(path, last_modified, terms).docs[other] == m.docs[other],
{
}

/// Indexing a file again replaces its earlier version: the documents are
/// those of indexing only the later version, and so are the document
/// frequencies (a term that no document holds any more may keep an entry
/// of 0).
pub proof fn law_reindexing_replaces(
    m: ModelView,
    path: Seq<char>,
    first_modified: Timestamp,
    first_terms: Seq<Seq<char>>,
    last_modified: Timestamp,
    terms: Seq<Seq<char>>,
)
    ensures
        m.added(path, first_modified, first_terms).added(path, last_modified, terms).docs
            == m.added(path, last_modified, terms).docs,
        forall|t: Seq<char>| #[trigger]
            m.added(path, first_modified, first_terms).added(path, last_modified, terms).df_or(t, 0)
                == m.added(path, last_modified, terms).df_or(t, 0),
{
    let base = m.removed(path);
    let m1 = m.added(path, first_modified, first_terms);
    let b1 = m1.removed(path);
    assert(b1.docs =~= base.docs);
    assert forall|t: Seq<char>| #[trigger] b1.df_or(t, 0) == base.df_or(t, 0) by {}
    let twice = m1.added(path, last_modified, terms);
    let once = m.added(path, last_modified, terms);
    assert(twice.docs =~= once.docs);
    assert forall|t: Seq<char>| #[trigger] twice.df_or(t, 0) == once.df_or(t, 0) by {
        assert(b1.df_or(t, 0) == base.df_or(t, 0));
    }
}

/// In a consistent index, the document frequency recorded for a term (0
/// where the table has no entry) is the number of documents that hold it.
pub proof fn law_document_frequency_counts_documents(m: ModelView, t: Seq<char>)
    requires
        m.consistent(),
    ensures
        m.df_or(t, 0) == documents_containing(m.docs, t),
{
}

/// Indexing a file that is not in the index and then taking it out again
/// gives back the documents and every document frequency (a term that no
/// document holds any more may keep an entry of 0).
pub proof fn law_add_then_remove_restores(
    m: ModelView,
    path: Seq<char>,
    last_modified: Timestamp,
    terms: Seq<Seq<char>>,
)
    requires
        !m.docs.contains_key(path),
    ensures
        m.added(path, last_modified, terms).removed(path).docs == m.docs,
        forall|t: Seq<char>| #[trigger]
            m.added(path, last_modified, terms).removed(path).df_or(t, 0) == m.df_or(t, 0),
{
    let r = m.added(path, last_modified, terms).removed(path);
    assert(r.docs =~= m.docs);
}

/// Indexing the same file twice, with the same time and terms, leaves the
/// index exactly as indexing it once.
pub proof fn law_indexing_twice_is_indexing_once(
    m: ModelView,
    path: Seq<char>,
    last_modified: Timestamp,
    terms: Seq<Seq<char>>,
)
    ensures
        m.added(path, last_modified, terms).added(path, last_modified, terms) == m.added(
            path,
            last_modified,
            terms,
        ),
{
    let once = m.added(path, last_modified, terms);
    let twice = once.added(path, last_modified, terms);
    let b1 = once.removed(path);
    assert(b1.docs =~= m.removed(path).docs);
    assert(twice.docs =~= once.docs);
    assert(twice.df =~= once.df);
}

/// The sum of the numbers of a finite map.
pub open spec fn value_total(m: Map<Seq<char>, nat>) -> nat
    decreases m.dom().len(),
    when m.dom().finite()
{
    if m.dom().len() == 0 {
        0
    } else {
        let k = m.dom().choose();
        m[k] + value_total(m.remove(k))
    }
}

/// The total can be taken from any key first.
pub proof fn lemma_value_total_remove(m: Map<Seq<char>, nat>, k: Seq<char>)
    requires
        m.dom().finite(),
        m.contains_key(k),
    ensures
        value_total(m) == m[k] + value_total(m.remove(k)),
    decreases m.dom().len(),
{
    let c = m.dom().choose();
    assert(m.dom().contains(c));
    if c != k {
        let mc = m.remove(c);
        let mk = m.remove(k);
        lemma_value_total_remove(mc, k);
        lemma_value_total_remove(mk, c);
        assert(mc.remove(k) =~= mk.remove(c));
    }
}

/// The table of how often each term occurs is finite, every term in it
/// occurs at least once, and the occurrences add up to the number of terms.
pub proof fn lemma_term_counts_total(terms: Seq<Seq<char>>)
    ensures
        term_counts(terms).dom().finite(),
        forall|t: Seq<char>| #[trigger]
            term_counts(terms).contains_key(t) ==> term_counts(terms)[t] >= 1,
        value_total(term_counts(terms)) == terms.len(),
    decreases terms.len(),
{
    if terms.len() > 0 {
        let before = term_counts(terms.drop_last());
        let x = terms.last();
        lemma_term_counts_total(terms.drop_last());
        let after = term_counts(terms);
        lemma_value_total_remove(after, x);
        if before.contains_key(x) {
            lemma_value_total_remove(before, x);
            assert(after.remove(x) =~= before.remove(x));
        } else {
            assert(after.remove(x) =~= before);
        }
    }
}

/// A document's term count is the sum of its term frequencies, each of
/// which is at least 1; indexing a document, or taking one out, keeps this
/// for every document.
pub proof fn law_document_count_is_sum_of_frequencies(
    m: ModelView,
    path: Seq<char>,
    last_modified: Timestamp,
    terms: Seq<Seq<char>>,
)
    requires
        forall|q: Seq<char>| #[trigger]
            m.docs.contains_key(q) ==> m.docs[q].tf.dom().finite() && m.docs[q].count
                == value_total(m.docs[q].tf) && (forall|t: Seq<char>| #[trigger]
                m.docs[q].tf.contains_key(t) ==> m.docs[q].tf[t] >= 1),
    ensures
        ({
            let a = m.added(path, last_modified, terms);
            forall|q: Seq<char>| #[trigger]
                a.docs.contains_key(q) ==> a.docs[q].tf.dom().finite() && a.docs[q].count
                    == value_total(a.docs[q].tf) && (forall|t: Seq<char>| #[trigger]
                    a.docs[q].tf.contains_key(t) ==> a.docs[q].tf[t] >= 1)
        }),
        ({
            let r = m.removed(path);
            forall|q: Seq<char>| #[trigger]
                r.docs.contains_key(q) ==> r.docs[q].tf.dom().finite() && r.docs[q].count
                    == value_total(r.docs[q].tf) && (forall|t: Seq<char>| #[trigger]
                    r.docs[q].tf.contains_key(t) ==> r.docs[q].tf[t] >= 1)
        }),
{
    lemma_term_counts_total(terms);
    let a = m.added(path, last_modified, terms);
    assert forall|q: Seq<char>| #[trigger] a.docs.contains_key(q) implies a.docs[q].tf.dom().finite()
        && a.docs[q].count == value_total(a.docs[q].tf) && (forall|t: Seq<char>| #[trigger]
        a.docs[q].tf.contains_key(t) ==> a.docs[q].tf[t] >= 1) by {
        if q != path {
            assert(m.docs.contains_key(q));
        }
    }
}

/// "Modified before" is a strict order of time points.
pub proof fn law_before_is_strict_order(a: Timestamp, b: Timestamp, c: Timestamp)
    ensures
        !a.spec_before(a),
        a.spec_before(b) ==> !b.spec_before(a),
        a.spec_before(b) && b.spec_before(c) ==> a.spec_before(c),
        a.spec_before(b) || b.spec_before(a) || a == b,
{
}

/// Time points are ordered chronologically: a point is before another
/// exactly when it has fewer seconds since the epoch, or as many seconds
/// and fewer nanoseconds.
pub proof fn law_before_is_chronological(a: Timestamp, b: Timestamp)
    ensures
        a.secs_since_epoch < b.secs_since_epoch ==> a.spec_before(b),
        a.secs_since_epoch == b.secs_since_epoch && a.nanos_since_epoch < b.nanos_since_epoch
            ==> a.spec_before(b),
        a.spec_before(b) ==> a.secs_since_epoch < b.secs_since_epoch || (a.secs_since_epoch
            == b.secs_since_epoch && a.nanos_since_epoch < b.nanos_since_epoch),
{
}

/// A file indexed with modification time `indexed` needs indexing again
/// exactly when it is found modified at a later time: more seconds since
/// the epoch, or as many seconds and more nanoseconds.
pub proof fn law_reindexing_follows_time(
    m: ModelView,
    path: Seq<char>,
    indexed: Timestamp,
    terms: Seq<Seq<char>>,
    found: Timestamp,
)
    ensures
        m.added(path, indexed, terms).needs_reindexing(path, found) <==> (indexed.secs_since_epoch
            < found.secs_since_epoch || (indexed.secs_since_epoch == found.secs_since_epoch
            && indexed.nanos_since_epoch < found.nanos_since_epoch)),
{
}

/// Every character of the piece is white space.
pub open spec fn all_white_space(w: Seq<char>) -> bool {
    forall|i: int| 0 <= i < w.len() ==> is_white_space(#[trigger] w[i])
}

/// A term: a non-empty run of characters none of which is white space.
pub open spec fn is_term(w: Seq<char>) -> bool {
    &&& w.len() > 0
    &&& forall|i: int| 0 <= i < w.len() ==> !is_white_space(#[trigger] w[i])
}

/// The text made of `seps[0]`, `terms[0]`, `seps[1]`, ..., `terms[n - 1]`,
/// `seps[n]`, where `n` is the number of terms.
pub open spec fn interleave(seps: Seq<Seq<char>>, terms: Seq<Seq<char>>) -> Seq<char>
    decreases terms.len(),
{
    if terms.len() == 0 {
        if seps.len() > 0 {
            seps[0]
        } else {
            Seq::empty()
        }
    } else {
        interleave(seps.drop_last(), terms.drop_last()) + terms.last() + seps.last()
    }
}

/// `s` is its terms, in order, separated by runs of white space: white
/// space (possibly none) before the first term and after the last, and at
/// least one white-space character between two terms.
pub open spec fn splits_into(s: Seq<char>, terms: Seq<Seq<char>>, seps: Seq<Seq<char>>) -> bool {
    &&& seps.len() == terms.len() + 1
    &&& forall|i: int| 0 <= i < seps.len() ==> all_white_space(#[trigger] seps[i])
    &&& forall|i: int| 0 < i < terms.len() ==> (#[trigger] seps[i]).len() > 0
    &&& forall|i: int| 0 <= i < terms.len() ==> is_term(#[trigger] terms[i])
    &&& s == interleave(seps, terms)
}

/// What a left-to-right reading of `s` has found: the finished terms with
/// their separators, then the term being read.
spec fn partial_split(s: Seq<char>, done: Seq<Seq<char>>, cur: Seq<char>, seps: Seq<Seq<char>>) -> bool {
    &&& seps.len() == done.len() + 1
    &&& forall|i: int| 0 <= i < seps.len() ==> all_white_space(#[trigger] seps[i])
    &&& forall|i: int| 0 < i <= done.len() ==> (#[trigger] seps[i]).len() > 0
    &&& forall|i: int| 0 <= i < done.len() ==> is_term(#[trigger] done[i])
    &&& forall|i: int| 0 <= i < cur.len() ==> !is_white_space(#[trigger] cur[i])
    &&& s == interleave(seps, done) + cur
}

/// Adding a character to the last separator adds it to the text.
proof fn lemma_interleave_extend(seps: Seq<Seq<char>>, terms: Seq<Seq<char>>, c: char)
    requires
        seps.len() == terms.len() + 1,
    ensures
        interleave(seps.update(seps.len() - 1, seps.last().push(c)), terms) == interleave(
            seps,
            terms,
        ).push(c),
{
    let u = seps.update(seps.len() - 1, seps.last().push(c));
    if terms.len() == 0 {
        assert(interleave(u, terms) =~= interleave(seps, terms).push(c));
    } else {
        assert(u.drop_last() =~= seps.drop_last());
        assert(interleave(u, terms) =~= interleave(seps, terms).push(c));
    }
}

/// The reading state of `split_state` is a partial split of the text read.
proof fn lemma_partial_split(s: Seq<char>) -> (seps: Seq<Seq<char>>)
    ensures
        partial_split(s, split_state(s).0, split_state(s).1, seps),
    decreases s.len(),
{
    if s.len() == 0 {
        let seps = seq![Seq::<char>::empty()];
        assert(s =~= interleave(seps, Seq::<Seq<char>>::empty()) + Seq::<char>::empty());
        seps
    } else {
        let t = s.drop_last();
        let c = s.last();
        let seps0 = lemma_partial_split(t);
        let done = split_state(t).0;
        let cur = split_state(t).1;
        assert(s =~= t.push(c));
        if is_white_space(c) {
            if cur.len() > 0 {
                let seps = seps0.push(seq![c]);
                let nd = done.push(cur);
                assert(seps.drop_last() =~= seps0);
                assert(nd.drop_last() =~= done);
                assert(interleave(seps, nd) == interleave(seps0, done) + cur + seq![c]);
                assert(s =~= interleave(seps, nd) + Seq::<char>::empty());
                assert forall|i: int| 0 <= i < seps.len() implies all_white_space(
                    #[trigger] seps[i],
                ) by {
                    if i < seps0.len() {
                        assert(seps[i] == seps0[i]);
                    }
                }
                assert forall|i: int| 0 < i <= nd.len() implies (#[trigger] seps[i]).len()
                    > 0 by {
                    if i < seps0.len() {
                        assert(seps[i] == seps0[i]);
                    }
                }
                assert forall|i: int| 0 <= i < nd.len() implies is_term(#[trigger] nd[i]) by {
                    if i < done.len() {
                        assert(nd[i] == done[i]);
                    }
                }
                seps
            } else {
                let last = seps0.len() - 1;
                let seps = seps0.update(last, seps0[last].push(c));
                lemma_interleave_extend(seps0, done, c);
                assert(s =~= interleave(seps, done) + cur);
                assert forall|i: int| 0 <= i < seps.len() implies all_white_space(
                    #[trigger] seps[i],
                ) by {
                    if i != last {
                        assert(seps[i] == seps0[i]);
                    } else {
                        assert(all_white_space(seps0[last]));
                    }
                }
                assert forall|i: int| 0 < i <= done.len() implies (#[trigger] seps[i]).len()
                    > 0 by {
                    if i != last {
                        assert(seps[i] == seps0[i]);
                    }
                }
                seps
            }
        } else {
            assert(s =~= interleave(seps0, done) + cur.push(c));
            seps0
        }
    }
}

/// The terms of a text are its maximal runs of characters that are not
/// white space, in order: the text is its terms separated by runs of white
/// space, with at least one white-space character between two terms, so
/// no term holds white space and no term spans white space.
pub proof fn law_words_split_at_white_space(s: Seq<char>)
    ensures
        exists|seps: Seq<Seq<char>>| #[trigger] splits_into(s, words(s), seps),
{
    let seps0 = lemma_partial_split(s);
    let done = split_state(s).0;
    let cur = split_state(s).1;
    if cur.len() > 0 {
        let seps = seps0.push(Seq::<char>::empty());
        let terms = done.push(cur);
        assert(seps.drop_last() =~= seps0);
        assert(terms.drop_last() =~= done);
        assert(s =~= interleave(seps, terms));
        assert forall|i: int| 0 <= i < seps.len() implies all_white_space(#[trigger] seps[i]) by {
            if i < seps0.len() {
                assert(seps[i] == seps0[i]);
            }
        }
        assert forall|i: int| 0 < i < terms.len() implies (#[trigger] seps[i]).len() > 0 by {
            assert(seps[i] == seps0[i]);
        }
        assert forall|i: int| 0 <= i < terms.len() implies is_term(#[trigger] terms[i]) by {
            if i < done.len() {
                assert(terms[i] == done[i]);
            }
        }
        assert(splits_into(s, words(s), seps));
    } else {
        assert(s =~= interleave(seps0, done));
        assert(splits_into(s, words(s), seps0));
    }
}

/// `idx` lists, in increasing order, the positions of all the character
/// data events among `items`, and the `k`-th text piece is the text of the
/// event at `idx[k]`.
pub open spec fn character_positions(items: Seq<XmlItemView>, idx: Seq<int>) -> bool {
    &&& idx.len() == character_data(items).len()
    &&& forall|k: int|
        0 <= k < idx.len() ==> 0 <= #[trigger] idx[k] < items.len() && items[idx[k]]
            == XmlItemView::Characters(character_data(items)[k])
    &&& forall|k: int, l: int| 0 <= k < l < idx.len() ==> #[trigger] idx[k] < #[trigger] idx[l]
    &&& forall|j: int|
        0 <= j < items.len() && (#[trigger] items[j] is Characters) ==> exists|k: int|
            0 <= k < idx.len() && idx[k] == j
}

/// The positions of the character data events among `items`, in order.
proof fn lemma_character_positions(items: Seq<XmlItemView>) -> (idx: Seq<int>)
    ensures
        character_positions(items, idx),
    decreases items.len(),
{
    if items.len() == 0 {
        Seq::empty()
    } else {
        let before = items.drop_last();
        let idx0 = lemma_character_positions(before);
        let n = items.len() - 1;
        assert forall|j: int| 0 <= j < n implies #[trigger] items[j] == before[j] by {}
        match items.last() {
            XmlItemView::Characters(t) => {
                let idx = idx0.push(n);
                assert forall|j: int|
                    0 <= j < items.len() && (#[trigger] items[j] is Characters) implies exists|
                    k: int,
                | 0 <= k < idx.len() && idx[k] == j by {
                    if j == n {
                        assert(idx[idx0.len() as int] == j);
                    } else {
                        assert(before[j] is Characters);
                        let k = choose|k: int| 0 <= k < idx0.len() && idx0[k] == j;
                        assert(idx[k] == j);
                    }
                }
                idx
            },
            _ => {
                assert forall|j: int|
                    0 <= j < items.len() && (#[trigger] items[j] is Characters) implies exists|
                    k: int,
                | 0 <= k < idx0.len() && idx0[k] == j by {
                    assert(j != n);
                    assert(before[j] is Characters);
                }
                idx0
            },
        }
    }
}

/// The text pieces of an XML document are exactly its character data
/// events, one piece per event, in order: the `k`-th piece is the text of
/// the `k`-th character data event, and every such event gives a piece.
pub proof fn law_character_data_is_one_piece_per_event(items: Seq<XmlItemView>)
    ensures
        exists|idx: Seq<int>| #[trigger] character_positions(items, idx),
{
    let idx = lemma_character_positions(items);
}

/// A piece without `<` is kept as it is, outside any tag.
proof fn lemma_html_plain(a: Seq<char>)
    requires
        forall|i: int| 0 <= i < a.len() ==> a[i] != '<',
    ensures
        html_state(a) == (a, false),
    decreases a.len(),
{
    if a.len() > 0 {
        lemma_html_plain(a.drop_last());
        assert(a.drop_last().push(a.last()) =~= a);
    }
}

/// Inside a tag, characters other than `>` add nothing.
proof fn lemma_html_inside_tag(x: Seq<char>, g: Seq<char>)
    requires
        html_state(x).1,
        forall|i: int| 0 <= i < g.len() ==> g[i] != '>',
    ensures
        html_state(x + g) == (html_state(x).0, true),
    decreases g.len(),
{
    if g.len() > 0 {
        lemma_html_inside_tag(x, g.drop_last());
        assert((x + g).drop_last() =~= x + g.drop_last());
    }
}

/// Outside a tag, the rest of a document is read as if it stood alone.
proof fn lemma_html_compose(x: Seq<char>, y: Seq<char>)
    requires
        !html_state(x).1,
    ensures
        html_state(x + y) == (html_state(x).0 + html_state(y).0, html_state(y).1),
    decreases y.len(),
{
    if y.len() == 0 {
        assert(x + y =~= x);
        assert(html_state(x).0 + html_state(y).0 =~= html_state(x).0);
    } else {
        lemma_html_compose(x, y.drop_last());
        assert((x + y).drop_last() =~= x + y.drop_last());
        assert((x + y).last() == y.last());
        let p = html_state(x).0;
        let q = html_state(y.drop_last()).0;
        assert((p + q).push(' ') =~= p + q.push(' '));
        assert((p + q).push(y.last()) =~= p + q.push(y.last()));
    }
}

/// The text of an HTML document: text before the first tag is kept as it
/// is, each tag (whatever it holds, a closing `/` included) stands as
/// exactly one space, and the rest is read the same way; a tag that is
/// never closed adds nothing.
pub proof fn law_html_tag_is_one_space(a: Seq<char>, g: Seq<char>, b: Seq<char>)
    requires
        forall|i: int| 0 <= i < a.len() ==> a[i] != '<',
        forall|i: int| 0 <= i < g.len() ==> g[i] != '>',
    ensures
        html_state(a).0 == a,
        html_state(a + seq!['<'] + g + seq!['>'] + b).0 == a + seq![' '] + html_state(b).0,
        html_state(a + seq!['<'] + g).0 == a,
{
    lemma_html_plain(a);
    let a1 = a + seq!['<'];
    assert(a1.drop_last() =~= a);
    assert(html_state(a1) == (a, true));
    lemma_html_inside_tag(a1, g);
    let a3 = a1 + g + seq!['>'];
    assert(a3.drop_last() =~= a1 + g);
    assert(html_state(a3) == (a.push(' '), false));
    lemma_html_compose(a3, b);
    assert(a + seq!['<'] + g + seq!['>'] + b =~= a3 + b);
    assert(a + seq!['<'] + g =~= a1 + g);
    assert(a.push(' ') =~= a + seq![' ']);
}

} // verus!
