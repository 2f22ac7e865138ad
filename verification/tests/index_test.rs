use std::collections::HashSet;

use jsearch::{DocSet, ForwardIndex, InvertedIndex, WordDictionary};

#[test]
fn intern_assigns_dense_identifiers() {
    let mut d = WordDictionary::new();
    assert_eq!(d.len(), 0);
    assert_eq!(d.intern(&"あ".to_string()), 0);
    assert_eq!(d.intern(&"い".to_string()), 1);
    assert_eq!(d.intern(&"あ".to_string()), 0);
    assert_eq!(d.len(), 2);
    assert_eq!(d.get(0).as_str(), "あ");
    assert_eq!(d.get(1).as_str(), "い");
}

#[test]
fn lookup_reads_without_growing() {
    let mut d = WordDictionary::new();
    d.intern(&"今日".to_string());
    assert_eq!(d.lookup(&"今日".to_string()), Some(0));
    assert_eq!(d.lookup(&"未知".to_string()), None);
    assert_eq!(d.len(), 1);
}

fn forms(words: &[&str]) -> Vec<String> {
    words.iter().map(|w| w.to_string()).collect()
}

/// The set of forms that a document's stored identifiers resolve to.
fn resolved(dict: &WordDictionary, fwd: &ForwardIndex, doc: &str) -> HashSet<String> {
    let d = fwd.find(&doc.to_string()).expect("document should be indexed");
    fwd.words(d).iter().map(|w| dict.get(*w as usize).clone()).collect()
}

#[test]
fn index_document_stores_each_form_once() {
    let mut dict = WordDictionary::new();
    let mut fwd = ForwardIndex::new();
    fwd.index_document(&mut dict, "a.txt".to_string(), &forms(&["x", "y", "x", "z"]));
    let r = resolved(&dict, &fwd, "a.txt");
    assert_eq!(r, forms(&["x", "y", "z"]).into_iter().collect::<HashSet<_>>());
    assert_eq!(fwd.words(0).len(), 3);
}

#[test]
fn reindexing_replaces_the_entry() {
    let mut dict = WordDictionary::new();
    let mut fwd = ForwardIndex::new();
    fwd.index_document(&mut dict, "a.txt".to_string(), &forms(&["x", "y"]));
    fwd.index_document(&mut dict, "a.txt".to_string(), &forms(&["z"]));
    assert_eq!(fwd.len(), 1);
    let r = resolved(&dict, &fwd, "a.txt");
    assert_eq!(r, forms(&["z"]).into_iter().collect::<HashSet<_>>());
}

#[test]
fn indexing_is_idempotent_across_runs() {
    // first run: an empty dictionary
    let mut dict1 = WordDictionary::new();
    let mut fwd1 = ForwardIndex::new();
    fwd1.index_document(&mut dict1, "a.txt".to_string(), &forms(&["犬", "猫"]));

    // second run: a dictionary grown differently by other documents
    let mut dict2 = WordDictionary::new();
    let mut fwd2 = ForwardIndex::new();
    fwd2.index_document(&mut dict2, "b.txt".to_string(), &forms(&["鳥", "猫", "魚"]));
    fwd2.index_document(&mut dict2, "a.txt".to_string(), &forms(&["犬", "猫"]));

    // the identifiers differ, the resolved form sets do not
    assert_eq!(resolved(&dict1, &fwd1, "a.txt"), resolved(&dict2, &fwd2, "a.txt"));
}

#[test]
fn inverted_index_is_the_transpose() {
    let mut fwd = ForwardIndex::new();
    fwd.set_doc("a.txt".to_string(), vec![0, 2]);
    fwd.set_doc("b.txt".to_string(), vec![1, 2]);
    let inv = InvertedIndex::build(&fwd);
    assert_eq!(inv.len(), 2);
    for (w, members) in [(0u32, [true, false]), (1, [false, true]), (2, [true, true])] {
        let p = inv.posting(w);
        for d in 0..2 {
            // membership in the posting set is exactly occurrence in the document
            assert_eq!(p.get(d), members[d]);
            let has = fwd.words(d).contains(&w);
            assert_eq!(p.get(d), has);
        }
    }
    // a word no document contains has an empty posting set
    let p = inv.posting(9);
    assert!(!p.get(0) && !p.get(1));
}

#[test]
fn docset_algebra() {
    let mut a = DocSet::empty(4);
    a.insert(0);
    a.insert(2);
    let full = DocSet::full(4);
    let b = a.complement();
    assert_eq!((b.get(0), b.get(1), b.get(2), b.get(3)), (false, true, false, true));
    let u = a.union(&b);
    for i in 0..4 {
        assert!(u.get(i) && full.get(i));
    }
    let i = a.intersect(&b);
    for d in 0..4 {
        assert!(!i.get(d));
    }
    assert_eq!(a.len(), 4);
    let c = a.duplicate();
    for d in 0..4 {
        assert_eq!(c.get(d), a.get(d));
    }
}
