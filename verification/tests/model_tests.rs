use offline_search::model::{
    term_frequencies, Document, DocumentEntry, DocumentStatistics, InMemoryModel, TermCount,
};
use offline_search::timestamp::Timestamp;

fn words(ws: &[&str]) -> Vec<String> {
    ws.iter().map(|w| w.to_string()).collect()
}

fn at(secs: u64, nanos: u32) -> Timestamp {
    Timestamp { secs_since_epoch: secs, nanos_since_epoch: nanos }
}

fn table(t: &[TermCount]) -> Vec<(String, usize)> {
    let mut v: Vec<(String, usize)> = t.iter().map(|e| (e.term.clone(), e.count)).collect();
    v.sort();
    v
}

fn df_of(m: &InMemoryModel) -> Vec<(String, usize)> {
    table(&m.to_parts().1)
}

fn docs_of(m: &InMemoryModel) -> Vec<(String, usize, Vec<(String, usize)>, Timestamp)> {
    let mut v: Vec<_> = m
        .to_parts()
        .0
        .iter()
        .map(|e| {
            (e.path.clone(), e.document.count, table(&e.document.tf), e.document.last_modified)
        })
        .collect();
    v.sort_by(|a, b| a.0.cmp(&b.0));
    v
}

fn stats_for<'a>(s: &'a [DocumentStatistics], path: &str) -> &'a DocumentStatistics {
    s.iter().find(|d| d.path == path).expect("document listed")
}

fn pairs(p: &[(&str, usize)]) -> Vec<(String, usize)> {
    p.iter().map(|(t, c)| (t.to_string(), *c)).collect()
}

#[test]
fn term_frequencies_count_occurrences() {
    let tf = term_frequencies(&words(&["a", "b", "a", "c", "a", "b"]));
    assert_eq!(table(&tf), pairs(&[("a", 3), ("b", 2), ("c", 1)]));
}

#[test]
fn term_frequencies_of_nothing_is_empty() {
    assert!(term_frequencies(&Vec::new()).is_empty());
}

#[test]
fn new_model_is_empty() {
    let m = InMemoryModel::new();
    assert_eq!(m.document_count(), 0);
    assert!(df_of(&m).is_empty());
    let d = InMemoryModel::default();
    assert_eq!(d.document_count(), 0);
}

#[test]
fn add_document_records_terms_and_document_frequencies() {
    let mut m = InMemoryModel::new();
    assert_eq!(m.add_document("a.txt".to_string(), at(1, 0), &words(&["x", "y", "x"])), Ok(()));
    assert_eq!(m.add_document("b.txt".to_string(), at(2, 0), &words(&["y", "z"])), Ok(()));
    assert_eq!(m.document_count(), 2);
    assert_eq!(df_of(&m), pairs(&[("x", 1), ("y", 2), ("z", 1)]));
    let docs = docs_of(&m);
    assert_eq!(docs[0].0, "a.txt");
    assert_eq!(docs[0].1, 3);
    assert_eq!(docs[0].2, pairs(&[("x", 2), ("y", 1)]));
    assert_eq!(docs[0].3, at(1, 0));
    assert_eq!(docs[1].1, 2);
}

#[test]
fn remove_document_lowers_document_frequencies() {
    let mut m = InMemoryModel::new();
    m.add_document("a".to_string(), at(1, 0), &words(&["x", "y"])).unwrap();
    m.add_document("b".to_string(), at(1, 0), &words(&["y"])).unwrap();
    m.remove_document("a");
    assert_eq!(m.document_count(), 1);
    // a term that no document holds keeps an entry of 0
    assert_eq!(df_of(&m), pairs(&[("x", 0), ("y", 1)]));
}

#[test]
fn remove_absent_document_changes_nothing() {
    let mut m = InMemoryModel::new();
    m.add_document("a".to_string(), at(1, 0), &words(&["x"])).unwrap();
    let before = (docs_of(&m), df_of(&m));
    m.remove_document("missing");
    assert_eq!((docs_of(&m), df_of(&m)), before);
}

#[test]
fn reindexing_replaces_the_earlier_version() {
    let mut m = InMemoryModel::new();
    m.add_document("a".to_string(), at(1, 0), &words(&["x", "y"])).unwrap();
    m.add_document("a".to_string(), at(5, 0), &words(&["y", "z", "z"])).unwrap();
    assert_eq!(m.document_count(), 1);
    let docs = docs_of(&m);
    assert_eq!(docs[0].2, pairs(&[("y", 1), ("z", 2)]));
    assert_eq!(docs[0].3, at(5, 0));
    assert_eq!(df_of(&m), pairs(&[("x", 0), ("y", 1), ("z", 1)]));
}

#[test]
fn document_frequencies_count_documents_holding_the_term() {
    let mut m = InMemoryModel::new();
    m.add_document("a".to_string(), at(1, 0), &words(&["t", "t", "t"])).unwrap();
    m.add_document("b".to_string(), at(1, 0), &words(&["t", "u"])).unwrap();
    m.add_document("c".to_string(), at(1, 0), &words(&["u"])).unwrap();
    m.remove_document("b");
    m.add_document("c".to_string(), at(2, 0), &words(&["t"])).unwrap();
    let docs = docs_of(&m);
    for (term, count) in df_of(&m) {
        let holding = docs.iter().filter(|d| d.2.iter().any(|(t, _)| *t == term)).count();
        assert_eq!(count, holding, "term {term}");
    }
}

#[test]
fn requires_reindexing_unknown_path() {
    let mut m = InMemoryModel::new();
    assert!(m.requires_reindexing("nowhere", at(0, 0)));
}

#[test]
fn requires_reindexing_compares_modification_times() {
    let mut m = InMemoryModel::new();
    m.add_document("a".to_string(), at(10, 5), &words(&["x"])).unwrap();
    assert!(!m.requires_reindexing("a", at(10, 5)));
    assert!(!m.requires_reindexing("a", at(9, 999)));
    assert!(!m.requires_reindexing("a", at(10, 4)));
    assert!(m.requires_reindexing("a", at(10, 6)));
    assert!(m.requires_reindexing("a", at(11, 0)));
    m.remove_document("a");
    assert!(m.requires_reindexing("a", at(10, 5)));
}

#[test]
fn indexing_one_path_leaves_others_alone() {
    let mut m = InMemoryModel::new();
    m.add_document("a".to_string(), at(1, 0), &words(&["x"])).unwrap();
    m.add_document("b".to_string(), at(2, 0), &words(&["y", "y"])).unwrap();
    let b_before = docs_of(&m)[1].clone();
    m.add_document("a".to_string(), at(3, 0), &words(&["z"])).unwrap();
    m.remove_document("c");
    assert_eq!(docs_of(&m)[1], b_before);
}

#[test]
fn query_statistics_report_frequencies() {
    let mut m = InMemoryModel::new();
    m.add_document("a".to_string(), at(1, 0), &words(&["x", "y", "x"])).unwrap();
    m.add_document("b".to_string(), at(1, 0), &words(&["y"])).unwrap();
    m.add_document("c".to_string(), at(1, 0), &words(&["w"])).unwrap();
    m.remove_document("c");
    let s = m.query_statistics(&words(&["x", "y", "q", "w"]));
    assert_eq!(s.len(), 2);
    let a = stats_for(&s, "a");
    assert_eq!(a.term_count, 3);
    let tf: Vec<usize> = a.terms.iter().map(|t| t.term_frequency).collect();
    let df: Vec<usize> = a.terms.iter().map(|t| t.document_frequency).collect();
    assert_eq!(tf, vec![2, 1, 0, 0]);
    // a term that no document holds counts 0, known to the table or not
    assert_eq!(df, vec![1, 2, 0, 0]);
    let b = stats_for(&s, "b");
    assert_eq!(b.term_count, 1);
    let tf: Vec<usize> = b.terms.iter().map(|t| t.term_frequency).collect();
    assert_eq!(tf, vec![0, 1, 0, 0]);
}

#[test]
fn query_statistics_of_empty_index() {
    let m = InMemoryModel::new();
    assert!(m.query_statistics(&words(&["x"])).is_empty());
}

#[test]
fn index_parsed_file_counts_skipped_files() {
    let mut m = InMemoryModel::new();
    let mut skipped = 0usize;
    assert_eq!(m.index_parsed_file("a".to_string(), at(1, 0), None, &mut skipped), Ok(()));
    assert_eq!(skipped, 1);
    assert_eq!(m.document_count(), 0);
    assert_eq!(
        m.index_parsed_file("b".to_string(), at(1, 0), Some(words(&["x"])), &mut skipped),
        Ok(())
    );
    let mut full = usize::MAX;
    assert_eq!(m.index_parsed_file("c".to_string(), at(1, 0), None, &mut full), Err(()));
    assert_eq!(full, usize::MAX);
    assert_eq!(skipped, 1);
    assert_eq!(m.document_count(), 1);
    assert_eq!(df_of(&m), pairs(&[("x", 1)]));
}

fn entry(path: &str, tf: &[(&str, usize)], count: usize) -> DocumentEntry {
    DocumentEntry {
        path: path.to_string(),
        document: Document {
            tf: tf.iter().map(|(t, c)| TermCount { term: t.to_string(), count: *c }).collect(),
            count,
            last_modified: at(1, 0),
        },
    }
}

fn terms(p: &[(&str, usize)]) -> Vec<TermCount> {
    p.iter().map(|(t, c)| TermCount { term: t.to_string(), count: *c }).collect()
}

#[test]
fn from_parts_accepts_a_consistent_index() {
    let docs = vec![entry("a", &[("x", 2)], 2), entry("b", &[("x", 1), ("y", 1)], 2)];
    let m = InMemoryModel::from_parts(docs, terms(&[("x", 2), ("y", 1), ("z", 0)])).unwrap();
    assert_eq!(m.document_count(), 2);
    assert_eq!(df_of(&m), pairs(&[("x", 2), ("y", 1), ("z", 0)]));
}

#[test]
fn from_parts_round_trips_to_parts() {
    let mut m = InMemoryModel::new();
    m.add_document("a".to_string(), at(7, 3), &words(&["x", "y", "x"])).unwrap();
    m.add_document("b".to_string(), at(8, 0), &words(&["y"])).unwrap();
    let (docs, df) = m.to_parts();
    let back = InMemoryModel::from_parts(docs, df).unwrap();
    assert_eq!(docs_of(&back), docs_of(&m));
    assert_eq!(df_of(&back), df_of(&m));
}

#[test]
fn from_parts_refuses_a_wrong_count() {
    let docs = vec![entry("a", &[("x", 2)], 2)];
    assert!(InMemoryModel::from_parts(docs, terms(&[("x", 2)])).is_none());
}

#[test]
fn from_parts_refuses_a_missing_term() {
    let docs = vec![entry("a", &[("x", 2), ("y", 1)], 3)];
    assert!(InMemoryModel::from_parts(docs, terms(&[("x", 1)])).is_none());
}

#[test]
fn from_parts_refuses_repeated_paths_and_terms() {
    let docs = vec![entry("a", &[("x", 1)], 1), entry("a", &[("x", 1)], 1)];
    assert!(InMemoryModel::from_parts(docs, terms(&[("x", 2)])).is_none());
    let docs = vec![entry("a", &[("x", 1), ("x", 1)], 2)];
    assert!(InMemoryModel::from_parts(docs, terms(&[("x", 1)])).is_none());
    let docs = vec![entry("a", &[("x", 1)], 1)];
    assert!(InMemoryModel::from_parts(docs, terms(&[("x", 1), ("x", 1)])).is_none());
}

#[test]
fn adding_then_removing_restores_the_index() {
    let mut m = InMemoryModel::new();
    m.add_document("a".to_string(), at(1, 0), &words(&["x", "y"])).unwrap();
    let before = (docs_of(&m), df_of(&m));
    m.add_document("b".to_string(), at(2, 0), &words(&["y", "z"])).unwrap();
    m.remove_document("b");
    assert_eq!(docs_of(&m), before.0);
    // z keeps an entry of 0
    assert_eq!(df_of(&m), pairs(&[("x", 1), ("y", 1), ("z", 0)]));
}

#[test]
fn indexing_twice_is_indexing_once() {
    let mut once = InMemoryModel::new();
    once.add_document("a".to_string(), at(1, 0), &words(&["x", "y", "x"])).unwrap();
    let mut twice = InMemoryModel::new();
    twice.add_document("a".to_string(), at(1, 0), &words(&["x", "y", "x"])).unwrap();
    twice.add_document("a".to_string(), at(1, 0), &words(&["x", "y", "x"])).unwrap();
    assert_eq!(docs_of(&twice), docs_of(&once));
    assert_eq!(df_of(&twice), df_of(&once));
}

#[test]
fn term_count_is_the_sum_of_term_frequencies() {
    let mut m = InMemoryModel::new();
    m.add_document("a".to_string(), at(1, 0), &words(&["x", "y", "x", "z", "x"])).unwrap();
    let docs = docs_of(&m);
    let sum: usize = docs[0].2.iter().map(|(_, c)| *c).sum();
    assert_eq!(docs[0].1, sum);
    assert!(docs[0].2.iter().all(|(_, c)| *c >= 1));
}
