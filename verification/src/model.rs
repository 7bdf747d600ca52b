use vstd::prelude::*;

use crate::assoc::{
    assoc_map, distinct_keys, lemma_assoc_dom, lemma_assoc_index, lemma_assoc_len,
    lemma_assoc_push, lemma_assoc_remove, lemma_assoc_update,
};
use crate::laws::{
    law_add_keeps_consistency, law_remove_keeps_consistency, lemma_containing_after_remove,
    lemma_containing_bounded,
};
use crate::timestamp::Timestamp;

verus! {

/// The characters of each string of a sequence.
pub open spec fn strings_view(v: Seq<String>) -> Seq<Seq<char>> {
    v.map_values(|s: String| s@)
}

/// How often each term occurs in `terms`; a term that does not occur has
/// no entry.
pub open spec fn term_counts(terms: Seq<Seq<char>>) -> Map<Seq<char>, nat>
    decreases terms.len(),
{
    if terms.len() == 0 {
        Map::empty()
    } else {
        let before = term_counts(terms.drop_last());
        let t = terms.last();
        before.insert(t, if before.contains_key(t) { before[t] + 1 } else { 1 })
    }
}

/// A term with a number attached: how often it occurs in a document, or in
/// how many documents it occurs.
pub struct TermCount {
    pub term: String,
    pub count: usize,
}

impl View for TermCount {
    type V = (Seq<char>, nat);

    open spec fn view(&self) -> (Seq<char>, nat) {
        (self.term@, self.count as nat)
    }
}

/// The entries of a term table as pairs of plain values.
pub open spec fn table_entries(s: Seq<TermCount>) -> Seq<(Seq<char>, nat)> {
    s.map_values(|e: TermCount| e@)
}

/// The map from term to number that a term table stands for.
pub open spec fn table_view(s: Seq<TermCount>) -> Map<Seq<char>, nat> {
    assoc_map(table_entries(s))
}

/// A term table lists each term at most once.
pub open spec fn table_wf(s: Seq<TermCount>) -> bool {
    distinct_keys(table_entries(s))
}

/// What the index knows of one document.
pub struct DocumentView {
    /// How often each term occurs in the document.
    pub tf: Map<Seq<char>, nat>,
    /// How many terms the document has, repetitions counted.
    pub count: nat,
    /// When the document was last modified.
    pub last_modified: Timestamp,
}

/// The index entry of one document.
pub struct Document {
    pub tf: Vec<TermCount>,
    pub count: usize,
    pub last_modified: Timestamp,
}

impl View for Document {
    type V = DocumentView;

    open spec fn view(&self) -> DocumentView {
        DocumentView {
            tf: table_view(self.tf@),
            count: self.count as nat,
            last_modified: self.last_modified,
        }
    }
}

/// A document together with its path.
pub struct DocumentEntry {
    pub path: String,
    pub document: Document,
}

impl View for DocumentEntry {
    type V = (Seq<char>, DocumentView);

    open spec fn view(&self) -> (Seq<char>, DocumentView) {
        (self.path@, self.document@)
    }
}

/// The entries of a document list as pairs of plain values.
pub open spec fn document_entries(s: Seq<DocumentEntry>) -> Seq<(Seq<char>, DocumentView)> {
    s.map_values(|e: DocumentEntry| e@)
}

/// A document list names each path at most once, and lists each term of a
/// document at most once.
pub open spec fn documents_wf(s: Seq<DocumentEntry>) -> bool {
    &&& distinct_keys(document_entries(s))
    &&& forall|i: int| 0 <= i < s.len() ==> table_wf(#[trigger] s[i].document.tf@)
}

/// The number of documents, among `docs`, in which `t` occurs.
pub open spec fn documents_containing(docs: Map<Seq<char>, DocumentView>, t: Seq<char>) -> nat {
    docs.dom().filter(|p: Seq<char>| docs[p].tf.contains_key(t)).len()
}

/// The whole index as plain values: the documents by path, and the
/// document frequency table.
pub struct ModelView {
    pub docs: Map<Seq<char>, DocumentView>,
    pub df: Map<Seq<char>, nat>,
}

impl ModelView {
    /// The document frequency of `t`, or `default` where the table has no
    /// entry for it.
    pub open spec fn df_or(self, t: Seq<char>, default: nat) -> nat {
        if self.df.contains_key(t) {
            self.df[t]
        } else {
            default
        }
    }

    /// The document frequency table counts, for each term, the documents in
    /// which it occurs (a term without an entry counts none).
    pub open spec fn consistent(self) -> bool {
        &&& self.docs.dom().finite()
        &&& forall|t: Seq<char>| #[trigger]
            documents_containing(self.docs, t) == self.df_or(t, 0)
    }

    /// The index after the document at `path` is taken out of it: the
    /// document is dropped and the frequency of each of its terms goes down
    /// by one. Without such a document nothing changes.
    pub open spec fn removed(self, path: Seq<char>) -> ModelView {
        if self.docs.contains_key(path) {
            let doc = self.docs[path];
            ModelView {
                docs: self.docs.remove(path),
                df: Map::new(
                    |t: Seq<char>| self.df.contains_key(t),
                    |t: Seq<char>|
                        if doc.tf.contains_key(t) {
                            (self.df[t] - 1) as nat
                        } else {
                            self.df[t]
                        },
                ),
            }
        } else {
            self
        }
    }

    /// The index after the document at `path`, modified at `last_modified`
    /// and made of `terms`, is put into it: any earlier version is taken
    /// out, then the new one is recorded and the frequency of each of its
    /// distinct terms goes up by one.
    pub open spec fn added(
        self,
        path: Seq<char>,
        last_modified: Timestamp,
        terms: Seq<Seq<char>>,
    ) -> ModelView {
        let base = self.removed(path);
        let tf = term_counts(terms);
        ModelView {
            docs: base.docs.insert(
                path,
                DocumentView { tf, count: terms.len(), last_modified },
            ),
            df: Map::new(
                |t: Seq<char>| base.df.contains_key(t) || tf.contains_key(t),
                |t: Seq<char>|
                    if tf.contains_key(t) {
                        base.df_or(t, 0) + 1
                    } else {
                        base.df[t]
                    },
            ),
        }
    }

    /// A file at `path`, last modified at `last_modified`, must be indexed
    /// again: the index has no document there, or an older one.
    pub open spec fn needs_reindexing(self, path: Seq<char>, last_modified: Timestamp) -> bool {
        if self.docs.contains_key(path) {
            self.docs[path].last_modified.spec_before(last_modified)
        } else {
            true
        }
    }
}

/// Where `t` is in the table, if it is.
fn find_term(table: &Vec<TermCount>, t: &String) -> (r: Option<usize>)
    ensures
        match r {
            Some(i) => i < table.len() && table@[i as int].term@ == t@,
            None => forall|i: int| 0 <= i < table.len() ==> table@[i].term@ != t@,
        },
{
    let mut i: usize = 0;
    while i < table.len()
        invariant
            i <= table.len(),
            forall|j: int| 0 <= j < i ==> table@[j].term@ != t@,
        decreases table.len() - i,
    {
        if table[i].term == *t {
            return Some(i);
        }
        i = i + 1;
    }
    None
}

/// Counts the occurrences of each term of a document.
pub fn term_frequencies(terms: &Vec<String>) -> (tf: Vec<TermCount>)
    ensures
        table_wf(tf@),
        table_view(tf@) == term_counts(strings_view(terms@)),
{
    let mut tf: Vec<TermCount> = Vec::new();
    let mut i: usize = 0;
    while i < terms.len()
        invariant
            i <= terms.len(),
            table_wf(tf@),
            table_view(tf@) == term_counts(strings_view(terms@).take(i as int)),
            forall|j: int| 0 <= j < tf.len() ==> #[trigger] tf@[j].count <= i,
        decreases terms.len() - i,
    {
        let ghost before = tf@;
        let ghost seen = strings_view(terms@).take(i as int);
        assert(strings_view(terms@).take(i + 1).drop_last() =~= seen);
        let term = &terms[i];
        match find_term(&tf, term) {
            Some(j) => {
                let c = tf[j].count;
                proof {
                    lemma_assoc_index(table_entries(before), j as int);
                    lemma_assoc_update(table_entries(before), j as int, (c + 1) as nat);
                }
                tf.set(j, TermCount { term: term.clone(), count: c + 1 });
                assert(table_entries(tf@) =~= table_entries(before).update(
                    j as int,
                    (table_entries(before)[j as int].0, (c + 1) as nat),
                ));
            },
            None => {
                proof {
                    lemma_assoc_dom(table_entries(before), term@);
                    if table_view(before).contains_key(term@) {
                        let k = choose|k: int|
                            0 <= k < table_entries(before).len() && #[trigger] table_entries(
                                before,
                            )[k].0 == term@;
                        assert(before[k].term@ == term@);
                    }
                    lemma_assoc_push(table_entries(before), term@, 1);
                }
                tf.push(TermCount { term: term.clone(), count: 1 });
                assert(table_entries(tf@) =~= table_entries(before).push((term@, 1nat)));
            },
        }
        i = i + 1;
    }
    assert(strings_view(terms@).take(terms.len() as int) =~= strings_view(terms@));
    tf
}


/// Some entry among the first `n` of the table is for `t`.
pub open spec fn lists_term(s: Seq<TermCount>, n: int, t: Seq<char>) -> bool {
    exists|k: int| 0 <= k < n && #[trigger] s[k].term@ == t
}

/// A term is listed in a table exactly when the table's map has it.
proof fn lemma_lists_term(s: Seq<TermCount>, t: Seq<char>)
    ensures
        lists_term(s, s.len() as int, t) <==> table_view(s).contains_key(t),
{
    lemma_assoc_dom(table_entries(s), t);
    if lists_term(s, s.len() as int, t) {
        let k = choose|k: int| 0 <= k < s.len() && #[trigger] s[k].term@ == t;
        assert(table_entries(s)[k].0 == t);
    }
    if table_view(s).contains_key(t) {
        let k = choose|k: int| 0 <= k < s.len() && #[trigger] table_entries(s)[k].0 == t;
        assert(s[k].term@ == t);
    }
}

/// In a table without repeated terms, no entry before the `j`-th is for the
/// `j`-th entry's term.
proof fn lemma_not_listed_before(s: Seq<TermCount>, j: int)
    requires
        table_wf(s),
        0 <= j < s.len(),
    ensures
        !lists_term(s, j, s[j].term@),
{
    if lists_term(s, j, s[j].term@) {
        let k = choose|k: int| 0 <= k < j && #[trigger] s[k].term@ == s[j].term@;
        assert(table_entries(s)[k].0 == table_entries(s)[j].0);
    }
}

/// What a query learns of one token in one document.
pub struct TermStatistics {
    /// How often the token occurs in the document.
    pub term_frequency: usize,
    /// The number of indexed documents in which the token occurs.
    pub document_frequency: usize,
}

/// What a query learns of one document.
pub struct DocumentStatistics {
    pub path: String,
    /// How many terms the document has.
    pub term_count: usize,
    /// One entry per token of the query, in the query's order.
    pub terms: Vec<TermStatistics>,
}

/// `s` reports, for the document at its path, its term count and, for each
/// token, the token's frequency in the document (0 where it does not occur)
/// and the number of indexed documents in which the token occurs.
pub open spec fn statistics_match(m: ModelView, tokens: Seq<Seq<char>>, s: DocumentStatistics) -> bool {
    let doc = m.docs[s.path@];
    &&& m.docs.contains_key(s.path@)
    &&& s.term_count == doc.count
    &&& s.terms.len() == tokens.len()
    &&& forall|j: int|
        0 <= j < tokens.len() ==> {
            &&& (#[trigger] s.terms@[j]).term_frequency == (if doc.tf.contains_key(tokens[j]) {
                doc.tf[tokens[j]]
            } else {
                0
            })
            &&& s.terms@[j].document_frequency == documents_containing(m.docs, tokens[j])
        }
}

/// An index of documents held in memory: for each document its term
/// frequencies, term count and modification time, and for each term the
/// number of documents in which it occurs.
pub struct InMemoryModel {
    docs: Vec<DocumentEntry>,
    df: Vec<TermCount>,
}

impl View for InMemoryModel {
    type V = ModelView;

    closed spec fn view(&self) -> ModelView {
        ModelView { docs: assoc_map(document_entries(self.docs@)), df: table_view(self.df@) }
    }
}

impl InMemoryModel {
    /// The index is well formed: no path or term is listed twice, and the
    /// document frequency table is in step with the documents.
    pub closed spec fn wf(&self) -> bool {
        &&& documents_wf(self.docs@)
        &&& table_wf(self.df@)
        &&& self@.consistent()
    }

    /// Every well-formed index keeps its document frequency table in step
    /// with its documents.
    pub proof fn law_wf_is_consistent(&self)
        requires
            self.wf(),
        ensures
            self@.consistent(),
    {
    }

    /// An empty index.
    pub fn new() -> (m: Self)
        ensures
            m.wf(),
            m@.docs == Map::<Seq<char>, DocumentView>::empty(),
            m@.df == Map::<Seq<char>, nat>::empty(),
    {
        let m = InMemoryModel { docs: Vec::new(), df: Vec::new() };
        assert(document_entries(m.docs@) =~= Seq::empty());
        assert(table_entries(m.df@) =~= Seq::empty());
        assert forall|t: Seq<char>| #[trigger]
            documents_containing(m@.docs, t) == m@.df_or(t, 0) by {
            let f = |q: Seq<char>| m@.docs[q].tf.contains_key(t);
            assert(m@.docs.dom().filter(f) =~= Set::empty());
        }
        m
    }

    /// Where the document at `path` is listed, if it is.
    fn find_document(&self, path: &String) -> (r: Option<usize>)
        requires
            self.wf(),
        ensures
            match r {
                Some(i) => i < self.docs.len() && self.docs@[i as int].path@ == path@,
                None => !self@.docs.contains_key(path@),
            },
    {
        let mut i: usize = 0;
        while i < self.docs.len()
            invariant
                i <= self.docs.len(),
                forall|j: int| 0 <= j < i ==> self.docs@[j].path@ != path@,
            decreases self.docs.len() - i,
        {
            if self.docs[i].path == *path {
                return Some(i);
            }
            i = i + 1;
        }
        proof {
            lemma_assoc_dom(document_entries(self.docs@), path@);
            if self@.docs.contains_key(path@) {
                let k = choose|k: int|
                    0 <= k < self.docs.len() && #[trigger] document_entries(self.docs@)[k].0
                        == path@;
                assert(self.docs@[k].path@ == path@);
            }
        }
        None
    }

    /// The number of documents in the index.
    pub fn document_count(&self) -> (n: usize)
        requires
            self.wf(),
        ensures
            n == self@.docs.len(),
    {
        proof {
            lemma_assoc_len(document_entries(self.docs@));
        }
        self.docs.len()
    }

    /// Takes the document at `path` out of the index, lowering the document
    /// frequency of each of its terms; without such a document nothing
    /// changes.
    pub fn remove_document(&mut self, path: &str)
        requires
            old(self).wf(),
        ensures
            final(self).wf(),
            final(self)@ == old(self)@.removed(path@),
    {
        let key = path.to_owned();
        match self.find_document(&key) {
            None => {},
            Some(i) => {
                let ghost old_view = self@;
                let ghost docs0 = self.docs@;
                proof {
                    lemma_assoc_index(document_entries(docs0), i as int);
                    lemma_assoc_remove(document_entries(docs0), i as int);
                }
                let entry = self.docs.remove(i);
                assert(document_entries(self.docs@) =~= document_entries(docs0).remove(i as int));
                let ghost docs1 = self.docs@;
                let ghost doc = entry.document@;
                let ghost dfv0 = table_view(self.df@);
                assert(doc == old_view.docs[path@]);
                assert forall|t: Seq<char>| #[trigger]
                    doc.tf.contains_key(t) implies dfv0.contains_key(t) && dfv0[t] >= 1 by {
                    lemma_containing_after_remove(old_view.docs, path@, t);
                    assert(documents_containing(old_view.docs, t) == old_view.df_or(t, 0));
                }
                assert(table_wf(entry.document.tf@)) by {
                    assert(docs0[i as int] == entry);
                }
                let tf = &entry.document.tf;
                let mut j: usize = 0;
                while j < tf.len()
                    invariant
                        j <= tf.len(),
                        table_wf(tf@),
                        table_wf(self.df@),
                        self.docs@ == docs1,
                        table_view(tf@) == doc.tf,
                        forall|t: Seq<char>| #[trigger]
                            doc.tf.contains_key(t) ==> dfv0.contains_key(t) && dfv0[t] >= 1,
                        table_view(self.df@) =~= Map::new(
                            |t: Seq<char>| dfv0.contains_key(t),
                            |t: Seq<char>|
                                if lists_term(tf@, j as int, t) {
                                    (dfv0[t] - 1) as nat
                                } else {
                                    dfv0[t]
                                },
                        ),
                    decreases tf.len() - j,
                {
                    let term = &tf[j].term;
                    let ghost before = self.df@;
                    proof {
                        lemma_not_listed_before(tf@, j as int);
                        lemma_assoc_index(table_entries(tf@), j as int);
                        assert(table_entries(tf@)[j as int].0 == term@);
                    }
                    match find_term(&self.df, term) {
                        Some(k) => {
                            let c = self.df[k].count;
                            proof {
                                lemma_assoc_index(table_entries(before), k as int);
                                assert(table_entries(before)[k as int].0 == term@);
                                lemma_assoc_update(table_entries(before), k as int, (c - 1) as nat);
                            }
                            self.df.set(k, TermCount { term: term.clone(), count: c - 1 });
                            assert(table_entries(self.df@) =~= table_entries(before).update(
                                k as int,
                                (table_entries(before)[k as int].0, (c - 1) as nat),
                            ));
                        },
                        None => {
                            proof {
                                lemma_assoc_dom(table_entries(before), term@);
                                let k = choose|k: int|
                                    0 <= k < table_entries(before).len()
                                        && #[trigger] table_entries(before)[k].0 == term@;
                                assert(before[k].term@ == term@);
                            }
                        },
                    }
                    j = j + 1;
                }
                proof {
                    assert forall|t: Seq<char>|
                        lists_term(tf@, tf.len() as int, t) == doc.tf.contains_key(t) by {
                        lemma_lists_term(tf@, t);
                    }
                    law_remove_keeps_consistency(old_view, path@);
                    assert(self@.df =~= old_view.removed(path@).df);
                    assert(self@ == old_view.removed(path@));
                    assert forall|a: int| 0 <= a < self.docs.len() implies table_wf(
                        #[trigger] self.docs@[a].document.tf@,
                    ) by {
                        let b = if a < i { a } else { a + 1 };
                        assert(self.docs@[a] == docs0[b]);
                    }
                }
            },
        }
    }
}

impl InMemoryModel {
    /// Indexes the document at `path`, made of `terms` and last modified at
    /// `last_modified`, in place of any earlier version of it; refused,
    /// with the index unchanged, only where it already holds as many
    /// documents as a `usize` can count.
    pub fn add_document(
        &mut self,
        path: String,
        last_modified: Timestamp,
        terms: &Vec<String>,
    ) -> (r: Result<(), ()>)
        requires
            old(self).wf(),
        ensures
            final(self).wf(),
            r is Ok <==> old(self)@.docs.len() < usize::MAX,
            r is Ok ==> final(self)@ == old(self)@.added(path@, last_modified, strings_view(terms@)),
            r is Err ==> *final(self) == *old(self),
    {
        proof {
            lemma_assoc_len(document_entries(self.docs@));
        }
        if self.docs.len() == usize::MAX {
            return Err(());
        }
        self.add_document_within_limit(path, last_modified, terms);
        Ok(())
    }

    /// Indexes the document at `path` where the index has room for it.
    fn add_document_within_limit(
        &mut self,
        path: String,
        last_modified: Timestamp,
        terms: &Vec<String>,
    )
        requires
            old(self).wf(),
            old(self)@.docs.len() < usize::MAX,
        ensures
            final(self).wf(),
            final(self)@ == old(self)@.added(path@, last_modified, strings_view(terms@)),
    {
        let ghost old_view = self@;
        let ghost p = path@;
        self.remove_document(path.as_str());
        let ghost base = self@;
        let ghost docs_b = self.docs@;
        let tf = term_frequencies(terms);
        let ghost dfv0 = table_view(self.df@);
        proof {
            assert(base.docs.len() <= old_view.docs.len());
            assert forall|t: Seq<char>| #[trigger]
                dfv0.contains_key(t) implies dfv0[t] < usize::MAX by {
                lemma_containing_bounded(base.docs, t);
                assert(documents_containing(base.docs, t) == base.df_or(t, 0));
            }
        }
        let mut j: usize = 0;
        while j < tf.len()
            invariant
                j <= tf.len(),
                table_wf(tf@),
                table_wf(self.df@),
                self.docs@ == docs_b,
                forall|t: Seq<char>| #[trigger] dfv0.contains_key(t) ==> dfv0[t] < usize::MAX,
                table_view(self.df@) =~= Map::new(
                    |t: Seq<char>| dfv0.contains_key(t) || lists_term(tf@, j as int, t),
                    |t: Seq<char>|
                        if lists_term(tf@, j as int, t) {
                            (if dfv0.contains_key(t) {
                                dfv0[t]
                            } else {
                                0
                            }) + 1
                        } else {
                            dfv0[t]
                        },
                ),
            decreases tf.len() - j,
        {
            let term = &tf[j].term;
            let ghost before = self.df@;
            proof {
                lemma_not_listed_before(tf@, j as int);
            }
            match find_term(&self.df, term) {
                Some(k) => {
                    let c = self.df[k].count;
                    proof {
                        lemma_assoc_index(table_entries(before), k as int);
                        assert(table_entries(before)[k as int].0 == term@);
                        lemma_assoc_update(table_entries(before), k as int, (c + 1) as nat);
                    }
                    self.df.set(k, TermCount { term: term.clone(), count: c + 1 });
                    assert(table_entries(self.df@) =~= table_entries(before).update(
                        k as int,
                        (table_entries(before)[k as int].0, (c + 1) as nat),
                    ));
                },
                None => {
                    proof {
                        lemma_assoc_dom(table_entries(before), term@);
                        if table_view(before).contains_key(term@) {
                            let k = choose|k: int|
                                0 <= k < table_entries(before).len()
                                    && #[trigger] table_entries(before)[k].0 == term@;
                            assert(before[k].term@ == term@);
                        }
                        lemma_assoc_push(table_entries(before), term@, 1);
                    }
                    self.df.push(TermCount { term: term.clone(), count: 1 });
                    assert(table_entries(self.df@) =~= table_entries(before).push((term@, 1nat)));
                },
            }
            j = j + 1;
        }
        let count = terms.len();
        let ghost new_doc = DocumentView {
            tf: table_view(tf@),
            count: count as nat,
            last_modified,
        };
        proof {
            assert forall|t: Seq<char>|
                lists_term(tf@, tf.len() as int, t) == table_view(tf@).contains_key(t) by {
                lemma_lists_term(tf@, t);
            }
            lemma_assoc_push(document_entries(docs_b), p, new_doc);
        }
        self.docs.push(
            DocumentEntry { path, document: Document { tf, count, last_modified } },
        );
        proof {
            assert(document_entries(self.docs@) =~= document_entries(docs_b).push((p, new_doc)));
            assert forall|a: int| 0 <= a < self.docs.len() implies table_wf(
                #[trigger] self.docs@[a].document.tf@,
            ) by {
                if a < docs_b.len() {
                    assert(self.docs@[a] == docs_b[a]);
                }
            }
            law_add_keeps_consistency(old_view, p, last_modified, strings_view(terms@));
            assert(self@.df =~= old_view.added(p, last_modified, strings_view(terms@)).df);
            assert(self@.docs =~= old_view.added(p, last_modified, strings_view(terms@)).docs);
        }
    }
}

impl InMemoryModel {
    /// Whether the file at `path`, last modified at `last_modified`, must be
    /// indexed again: the index has no document there, or one modified
    /// earlier.
    pub fn requires_reindexing(&mut self, path: &str, last_modified: Timestamp) -> (r: bool)
        requires
            old(self).wf(),
        ensures
            *final(self) == *old(self),
            r == old(self)@.needs_reindexing(path@, last_modified),
    {
        let key = path.to_owned();
        match self.find_document(&key) {
            Some(i) => {
                proof {
                    lemma_assoc_index(document_entries(self.docs@), i as int);
                }
                self.docs[i].document.last_modified.is_before(&last_modified)
            },
            None => true,
        }
    }

    /// For each indexed document, its term count and, for each token of a
    /// query, the token's frequency in it and the token's document
    /// frequency: what the ranking of a query is computed from.
    pub fn query_statistics(&self, tokens: &Vec<String>) -> (r: Vec<DocumentStatistics>)
        requires
            self.wf(),
        ensures
            r.len() == self@.docs.len(),
            forall|i: int|
                0 <= i < r.len() ==> statistics_match(
                    self@,
                    strings_view(tokens@),
                    #[trigger] r@[i],
                ),
            forall|i: int, j: int|
                #![trigger r@[i], r@[j]]
                0 <= i < r.len() && 0 <= j < r.len() && i != j ==> r@[i].path@ != r@[j].path@,
            forall|p: Seq<char>|
                #[trigger] self@.docs.contains_key(p) ==> exists|i: int|
                    0 <= i < r.len() && #[trigger] r@[i].path@ == p,
    {
        let ghost toks = strings_view(tokens@);
        let mut dfs: Vec<usize> = Vec::new();
        let mut j: usize = 0;
        while j < tokens.len()
            invariant
                j <= tokens.len(),
                toks == strings_view(tokens@),
                table_wf(self.df@),
                dfs.len() == j,
                self@.consistent(),
                forall|a: int|
                    0 <= a < j ==> #[trigger] dfs@[a] == documents_containing(self@.docs, toks[a]),
            decreases tokens.len() - j,
        {
            let d = match find_term(&self.df, &tokens[j]) {
                Some(k) => {
                    proof {
                        lemma_assoc_index(table_entries(self.df@), k as int);
                    }
                    self.df[k].count
                },
                None => {
                    proof {
                        lemma_lists_term(self.df@, tokens[j as int]@);
                    }
                    0
                },
            };
            assert(d == documents_containing(self@.docs, toks[j as int]));
            dfs.push(d);
            j = j + 1;
        }
        let mut r: Vec<DocumentStatistics> = Vec::new();
        let mut i: usize = 0;
        while i < self.docs.len()
            invariant
                i <= self.docs.len(),
                self.wf(),
                toks == strings_view(tokens@),
                dfs.len() == tokens.len(),
                forall|a: int|
                    0 <= a < tokens.len() ==> #[trigger] dfs@[a] == documents_containing(
                        self@.docs,
                        toks[a],
                    ),
                r.len() == i,
                forall|a: int| 0 <= a < i ==> #[trigger] r@[a].path@ == self.docs@[a].path@,
                forall|a: int| 0 <= a < i ==> statistics_match(self@, toks, #[trigger] r@[a]),
            decreases self.docs.len() - i,
        {
            let entry = &self.docs[i];
            let ghost doc = entry.document@;
            proof {
                lemma_assoc_index(document_entries(self.docs@), i as int);
                assert(table_wf(self.docs@[i as int].document.tf@));
            }
            let mut ts: Vec<TermStatistics> = Vec::new();
            let mut j: usize = 0;
            while j < tokens.len()
                invariant
                    j <= tokens.len(),
                    toks == strings_view(tokens@),
                    table_wf(entry.document.tf@),
                    doc == entry.document@,
                    dfs.len() == tokens.len(),
                    ts.len() == j,
                    forall|a: int|
                        0 <= a < j ==> (#[trigger] ts@[a]).term_frequency == (if doc.tf.contains_key(
                            toks[a],
                        ) {
                            doc.tf[toks[a]]
                        } else {
                            0
                        }) && ts@[a].document_frequency == dfs@[a],
                decreases tokens.len() - j,
            {
                let f = match find_term(&entry.document.tf, &tokens[j]) {
                    Some(k) => {
                        proof {
                            lemma_assoc_index(table_entries(entry.document.tf@), k as int);
                        }
                        entry.document.tf[k].count
                    },
                    None => {
                        proof {
                            lemma_lists_term(entry.document.tf@, tokens[j as int]@);
                        }
                        0
                    },
                };
                ts.push(TermStatistics { term_frequency: f, document_frequency: dfs[j] });
                j = j + 1;
            }
            r.push(
                DocumentStatistics {
                    path: entry.path.clone(),
                    term_count: entry.document.count,
                    terms: ts,
                },
            );
            i = i + 1;
        }
        proof {
            lemma_assoc_len(document_entries(self.docs@));
            assert forall|a: int, b: int|
                #![trigger r@[a], r@[b]]
                0 <= a < r.len() && 0 <= b < r.len() && a != b implies r@[a].path@
                != r@[b].path@ by {
                assert(document_entries(self.docs@)[a].0 != document_entries(self.docs@)[b].0);
            }
            assert forall|p: Seq<char>| #[trigger]
                self@.docs.contains_key(p) implies exists|a: int|
                0 <= a < r.len() && #[trigger] r@[a].path@ == p by {
                lemma_assoc_dom(document_entries(self.docs@), p);
                let a = choose|a: int|
                    0 <= a < self.docs.len() && #[trigger] document_entries(self.docs@)[a].0 == p;
                assert(r@[a].path@ == p);
            }
        }
        r
    }
}

/// The index that a document list and a document frequency table stand for.
pub open spec fn parts_view(docs: Seq<DocumentEntry>, df: Seq<TermCount>) -> ModelView {
    ModelView { docs: assoc_map(document_entries(docs)), df: table_view(df) }
}

/// A document list and a document frequency table make a well-formed
/// index: no path or term is listed twice, and the table is in step with
/// the documents.
pub open spec fn parts_wf(docs: Seq<DocumentEntry>, df: Seq<TermCount>) -> bool {
    &&& documents_wf(docs)
    &&& table_wf(df)
    &&& parts_view(docs, df).consistent()
}

/// The number of entries of `s` whose document contains `t`.
pub open spec fn count_containing(s: Seq<(Seq<char>, DocumentView)>, t: Seq<char>) -> nat
    decreases s.len(),
{
    if s.len() == 0 {
        0
    } else {
        count_containing(s.drop_last(), t) + (if s.last().1.tf.contains_key(t) {
            1nat
        } else {
            0nat
        })
    }
}

/// Counting the entries of a list without repeated paths counts the
/// documents of its map.
proof fn lemma_count_containing(s: Seq<(Seq<char>, DocumentView)>, t: Seq<char>)
    requires
        distinct_keys(s),
    ensures
        count_containing(s, t) == documents_containing(assoc_map(s), t),
    decreases s.len(),
{
    if s.len() == 0 {
        let m = assoc_map(s);
        assert(m.dom().filter(|q: Seq<char>| m[q].tf.contains_key(t)) =~= Set::empty());
    } else {
        let u = s.drop_last();
        crate::assoc::lemma_distinct_drop_last(s);
        lemma_count_containing(u, t);
        lemma_assoc_len(u);
        lemma_assoc_dom(u, s.last().0);
        if assoc_map(u).contains_key(s.last().0) {
            let k = choose|k: int| 0 <= k < u.len() && #[trigger] u[k].0 == s.last().0;
            assert(s[k].0 == s[s.len() - 1].0);
        }
        crate::laws::lemma_containing_after_insert(assoc_map(u), s.last().0, s.last().1, t);
    }
}

/// Whether no term is listed twice in the table.
fn table_has_distinct_terms(s: &Vec<TermCount>) -> (b: bool)
    ensures
        b == table_wf(s@),
{
    let mut i: usize = 0;
    while i < s.len()
        invariant
            i <= s.len(),
            forall|a: int, b: int|
                0 <= a < i && 0 <= b < i && a != b ==> s@[a].term@ != s@[b].term@,
        decreases s.len() - i,
    {
        let mut j: usize = 0;
        while j < i
            invariant
                i < s.len(),
                j <= i,
                forall|b: int| 0 <= b < j ==> s@[b].term@ != s@[i as int].term@,
            decreases i - j,
        {
            if s[j].term == s[i].term {
                assert(table_entries(s@)[j as int].0 == table_entries(s@)[i as int].0);
                return false;
            }
            j = j + 1;
        }
        i = i + 1;
    }
    assert forall|a: int, b: int|
        #![trigger table_entries(s@)[a], table_entries(s@)[b]]
        0 <= a < s.len() && 0 <= b < s.len() && a != b implies table_entries(s@)[a].0
        != table_entries(s@)[b].0 by {
        assert(s@[a].term@ != s@[b].term@);
    }
    true
}

/// Whether no path is listed twice and no document lists a term twice.
fn documents_are_distinct(s: &Vec<DocumentEntry>) -> (b: bool)
    ensures
        b == documents_wf(s@),
{
    let mut i: usize = 0;
    while i < s.len()
        invariant
            i <= s.len(),
            forall|a: int, b: int|
                0 <= a < i && 0 <= b < i && a != b ==> s@[a].path@ != s@[b].path@,
            forall|a: int| 0 <= a < i ==> table_wf(#[trigger] s@[a].document.tf@),
        decreases s.len() - i,
    {
        if !table_has_distinct_terms(&s[i].document.tf) {
            return false;
        }
        let mut j: usize = 0;
        while j < i
            invariant
                i < s.len(),
                j <= i,
                forall|b: int| 0 <= b < j ==> s@[b].path@ != s@[i as int].path@,
            decreases i - j,
        {
            if s[j].path == s[i].path {
                assert(document_entries(s@)[j as int].0 == document_entries(s@)[i as int].0);
                return false;
            }
            j = j + 1;
        }
        i = i + 1;
    }
    assert forall|a: int, b: int|
        #![trigger document_entries(s@)[a], document_entries(s@)[b]]
        0 <= a < s.len() && 0 <= b < s.len() && a != b implies document_entries(s@)[a].0
        != document_entries(s@)[b].0 by {
        assert(s@[a].path@ != s@[b].path@);
    }
    true
}

/// The number of documents of the list that contain `t`.
fn count_documents_containing(docs: &Vec<DocumentEntry>, t: &String) -> (n: usize)
    requires
        documents_wf(docs@),
    ensures
        n == count_containing(document_entries(docs@), t@),
{
    let mut n: usize = 0;
    let mut i: usize = 0;
    while i < docs.len()
        invariant
            i <= docs.len(),
            documents_wf(docs@),
            n <= i,
            n == count_containing(document_entries(docs@).take(i as int), t@),
        decreases docs.len() - i,
    {
        assert(document_entries(docs@).take(i + 1).drop_last() =~= document_entries(docs@).take(
            i as int,
        ));
        proof {
            lemma_lists_term(docs@[i as int].document.tf@, t@);
        }
        if find_term(&docs[i].document.tf, t).is_some() {
            n = n + 1;
        }
        i = i + 1;
    }
    assert(document_entries(docs@).take(docs.len() as int) =~= document_entries(docs@));
    n
}

impl InMemoryModel {
    /// Builds an index from its document list and document frequency table;
    /// `None` where they do not make a well-formed index.
    pub fn from_parts(docs: Vec<DocumentEntry>, df: Vec<TermCount>) -> (r: Option<InMemoryModel>)
        ensures
            r is Some <==> parts_wf(docs@, df@),
            r matches Some(m) ==> m.wf() && m@ == parts_view(docs@, df@),
    {
        if !documents_are_distinct(&docs) || !table_has_distinct_terms(&df) {
            return None;
        }
        let ghost v = parts_view(docs@, df@);
        proof {
            lemma_assoc_len(document_entries(docs@));
        }
        // every table entry counts the documents that contain its term
        let mut k: usize = 0;
        while k < df.len()
            invariant
                k <= df.len(),
                documents_wf(docs@),
                table_wf(df@),
                v == parts_view(docs@, df@),
                v.docs.dom().finite(),
                forall|a: int|
                    0 <= a < k ==> #[trigger] df@[a].count == documents_containing(
                        v.docs,
                        df@[a].term@,
                    ),
            decreases df.len() - k,
        {
            let n = count_documents_containing(&docs, &df[k].term);
            proof {
                lemma_count_containing(document_entries(docs@), df@[k as int].term@);
            }
            if n != df[k].count {
                proof {
                    lemma_assoc_index(table_entries(df@), k as int);
                    assert(documents_containing(v.docs, df@[k as int].term@) != v.df_or(
                        df@[k as int].term@,
                        0,
                    ));
                }
                return None;
            }
            k = k + 1;
        }
        // every term of every document has a table entry
        let mut i: usize = 0;
        while i < docs.len()
            invariant
                i <= docs.len(),
                documents_wf(docs@),
                table_wf(df@),
                v == parts_view(docs@, df@),
                v.docs.dom().finite(),
                forall|a: int, t: Seq<char>|
                    0 <= a < i && #[trigger] docs@[a].document@.tf.contains_key(t)
                        ==> v.df.contains_key(t),
            decreases docs.len() - i,
        {
            let tf = &docs[i].document.tf;
            let mut j: usize = 0;
            while j < tf.len()
                invariant
                    i < docs.len(),
                    j <= tf.len(),
                    tf == &docs@[i as int].document.tf,
                    documents_wf(docs@),
                    v.docs.dom().finite(),
                    table_wf(tf@),
                    table_wf(df@),
                    v == parts_view(docs@, df@),
                    forall|b: int| 0 <= b < j ==> v.df.contains_key(#[trigger] tf@[b].term@),
                decreases tf.len() - j,
            {
                match find_term(&df, &tf[j].term) {
                    Some(kk) => {
                        proof {
                            lemma_assoc_index(table_entries(df@), kk as int);
                        }
                    },
                    None => {
                        proof {
                            lemma_lists_term(df@, tf@[j as int].term@);
                            let p = docs@[i as int].path@;
                            let t = tf@[j as int].term@;
                            lemma_assoc_index(document_entries(docs@), i as int);
                            lemma_assoc_index(table_entries(tf@), j as int);
                            assert(table_entries(tf@)[j as int].0 == t);
                            crate::laws::lemma_containing_after_remove(v.docs, p, t);
                            assert(documents_containing(v.docs, t) != v.df_or(t, 0));
                        }
                        return None;
                    },
                }
                j = j + 1;
            }
            proof {
                assert forall|t: Seq<char>| #[trigger]
                    docs@[i as int].document@.tf.contains_key(t) implies v.df.contains_key(t) by {
                    lemma_lists_term(tf@, t);
                    let b = choose|b: int| 0 <= b < tf.len() && #[trigger] tf@[b].term@ == t;
                    assert(v.df.contains_key(tf@[b].term@));
                }
            }
            i = i + 1;
        }
        proof {
            assert forall|t: Seq<char>| #[trigger]
                documents_containing(v.docs, t) == v.df_or(t, 0) by {
                if v.df.contains_key(t) {
                    lemma_assoc_dom(table_entries(df@), t);
                    let a = choose|a: int|
                        0 <= a < df.len() && #[trigger] table_entries(df@)[a].0 == t;
                    lemma_assoc_index(table_entries(df@), a);
                    assert(df@[a].count == documents_containing(v.docs, df@[a].term@));
                } else {
                    let f = |q: Seq<char>| v.docs[q].tf.contains_key(t);
                    assert forall|q: Seq<char>| v.docs.contains_key(q) implies !f(q) by {
                        lemma_assoc_dom(document_entries(docs@), q);
                        let a = choose|a: int|
                            0 <= a < docs.len() && #[trigger] document_entries(docs@)[a].0 == q;
                        lemma_assoc_index(document_entries(docs@), a);
                        if f(q) {
                            assert(docs@[a].document@.tf.contains_key(t));
                        }
                    }
                    assert(v.docs.dom().filter(f) =~= Set::empty());
                }
            }
        }
        Some(InMemoryModel { docs, df })
    }
}

/// A copy of a term table.
fn copy_table(s: &Vec<TermCount>) -> (r: Vec<TermCount>)
    ensures
        r@ == s@,
{
    let mut r: Vec<TermCount> = Vec::new();
    let mut i: usize = 0;
    while i < s.len()
        invariant
            i <= s.len(),
            r@ =~= s@.take(i as int),
        decreases s.len() - i,
    {
        r.push(TermCount { term: s[i].term.clone(), count: s[i].count });
        i = i + 1;
    }
    assert(s@.take(s.len() as int) =~= s@);
    r
}

/// A copy of a document list: the same paths, with the same terms, counts
/// and times.
fn copy_documents(s: &Vec<DocumentEntry>) -> (r: Vec<DocumentEntry>)
    ensures
        r.len() == s.len(),
        forall|i: int|
            0 <= i < s.len() ==> (#[trigger] r@[i]).path@ == s@[i].path@ && r@[i].document.tf@
                == s@[i].document.tf@ && r@[i].document.count == s@[i].document.count
                && r@[i].document.last_modified == s@[i].document.last_modified,
{
    let mut r: Vec<DocumentEntry> = Vec::new();
    let mut i: usize = 0;
    while i < s.len()
        invariant
            i <= s.len(),
            r.len() == i,
            forall|a: int|
                0 <= a < i ==> (#[trigger] r@[a]).path@ == s@[a].path@ && r@[a].document.tf@
                    == s@[a].document.tf@ && r@[a].document.count == s@[a].document.count
                    && r@[a].document.last_modified == s@[a].document.last_modified,
        decreases s.len() - i,
    {
        let e = &s[i];
        r.push(
            DocumentEntry {
                path: e.path.clone(),
                document: Document {
                    tf: copy_table(&e.document.tf),
                    count: e.document.count,
                    last_modified: e.document.last_modified,
                },
            },
        );
        i = i + 1;
    }
    r
}

impl InMemoryModel {
    /// The document list and document frequency table of the index.
    pub fn to_parts(&self) -> (r: (Vec<DocumentEntry>, Vec<TermCount>))
        requires
            self.wf(),
        ensures
            parts_wf(r.0@, r.1@),
            parts_view(r.0@, r.1@) == self@,
    {
        let docs = copy_documents(&self.docs);
        let df = copy_table(&self.df);
        assert(document_entries(docs@) =~= document_entries(self.docs@));
        assert forall|a: int| 0 <= a < docs.len() implies table_wf(
            #[trigger] docs@[a].document.tf@,
        ) by {
            assert(table_wf(self.docs@[a].document.tf@));
        }
        (docs, df)
    }
}

impl Default for InMemoryModel {
    /// An empty index.
    fn default() -> (m: Self)
        ensures
            m.wf(),
            m@.docs == Map::<Seq<char>, DocumentView>::empty(),
            m@.df == Map::<Seq<char>, nat>::empty(),
    {
        InMemoryModel::new()
    }
}

impl InMemoryModel {
    /// Records one file of a folder walk whose parse result is at hand: its
    /// terms are indexed, or, where it could not be parsed, it is counted
    /// as skipped. Refused, with nothing changed, only where the index or
    /// the count of skipped files is as large as a `usize` can count.
    pub fn index_parsed_file(
        &mut self,
        path: String,
        last_modified: Timestamp,
        parsed: Option<Vec<String>>,
        skipped: &mut usize,
    ) -> (r: Result<(), ()>)
        requires
            old(self).wf(),
        ensures
            final(self).wf(),
            match parsed {
                Some(terms) => {
                    &&& r is Ok <==> old(self)@.docs.len() < usize::MAX
                    &&& r is Ok ==> final(self)@ == old(self)@.added(
                        path@,
                        last_modified,
                        strings_view(terms@),
                    )
                    &&& r is Err ==> *final(self) == *old(self)
                    &&& *final(skipped) == *old(skipped)
                },
                None => {
                    &&& r is Ok <==> *old(skipped) < usize::MAX
                    &&& *final(self) == *old(self)
                    &&& r is Ok ==> *final(skipped) == *old(skipped) + 1
                    &&& r is Err ==> *final(skipped) == *old(skipped)
                },
            },
    {
        match parsed {
            Some(terms) => self.add_document(path, last_modified, &terms),
            None => {
                if *skipped == usize::MAX {
                    return Err(());
                }
                *skipped = *skipped + 1;
                Ok(())
            },
        }
    }
}

} // verus!
