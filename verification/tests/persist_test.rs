use std::collections::HashSet;

use jsearch::{
    parse_matrix, parse_u32, parse_words, serialize_matrix, serialize_words, split_lines,
    u32_to_string, ForwardIndex, PersistError, WordDictionary,
};

#[test]
fn decimal_writing() {
    assert_eq!(u32_to_string(0).as_str(), "0");
    assert_eq!(u32_to_string(7).as_str(), "7");
    assert_eq!(u32_to_string(120).as_str(), "120");
    assert_eq!(u32_to_string(4294967295).as_str(), "4294967295");
}

#[test]
fn decimal_reading() {
    assert_eq!(parse_u32("0"), Some(0));
    assert_eq!(parse_u32("042"), Some(42));
    assert_eq!(parse_u32("4294967295"), Some(4294967295));
    assert_eq!(parse_u32("4294967296"), None);
    assert_eq!(parse_u32(""), None);
    assert_eq!(parse_u32("12a"), None);
    assert_eq!(parse_u32("-1"), None);
    assert_eq!(parse_u32("1 2"), None);
}

#[test]
fn decimal_round_trip() {
    for n in [0u32, 1, 9, 10, 99, 100, 65535, 4294967295] {
        assert_eq!(parse_u32(u32_to_string(n).as_str()), Some(n));
    }
}

#[test]
fn line_splitting() {
    let lines = split_lines("a\nb\n");
    assert_eq!(lines, vec!["a".to_string(), "b".to_string()]);
    let lines = split_lines("a\n\nb");
    assert_eq!(lines, vec!["a".to_string(), "".to_string(), "b".to_string()]);
    let lines = split_lines("");
    assert!(lines.is_empty());
    // a trailing carriage return is stripped when lines are read back
    let lines = split_lines("a\r\nb");
    assert_eq!(lines, vec!["a".to_string(), "b".to_string()]);
}

fn dict_of(forms: &[&str]) -> WordDictionary {
    let mut d = WordDictionary::new();
    for f in forms {
        d.intern(&f.to_string());
    }
    d
}

#[test]
fn word_table_format() {
    let d = dict_of(&["今日", "は", "晴れ"]);
    assert_eq!(serialize_words(&d).as_str(), "今日\nは\n晴れ\n");
}

#[test]
fn word_table_round_trip() {
    let d = dict_of(&["今日", "は", "晴れ"]);
    let text = serialize_words(&d);
    let back = parse_words(text.as_str()).expect("the written table should read back");
    assert_eq!(back.len(), 3);
    for (i, f) in ["今日", "は", "晴れ"].iter().enumerate() {
        assert_eq!(back.get(i).as_str(), *f);
        assert_eq!(back.lookup(&f.to_string()), Some(i as u32));
    }
}

#[test]
fn word_table_rejects_duplicates() {
    assert!(matches!(parse_words("a\nb\na\n"), Err(PersistError::DuplicateForm)));
}

#[test]
fn word_table_reads_in_line_order() {
    let d = parse_words("x\ny\n").expect("should read");
    assert_eq!(d.lookup(&"x".to_string()), Some(0));
    assert_eq!(d.lookup(&"y".to_string()), Some(1));
}

#[test]
fn matrix_format() {
    let mut fwd = ForwardIndex::new();
    fwd.set_doc("a.txt".to_string(), vec![1, 0, 2]);
    fwd.set_doc("b.txt".to_string(), vec![]);
    let text = serialize_matrix(&fwd);
    assert_eq!(text.as_str(), "a.txt\t1 0 2\nb.txt\n");
}

fn doc_words(fwd: &ForwardIndex, path: &str) -> HashSet<u32> {
    let d = fwd.find(&path.to_string()).expect("document should be present");
    fwd.words(d).iter().cloned().collect()
}

#[test]
fn matrix_round_trip() {
    let mut fwd = ForwardIndex::new();
    fwd.set_doc("dir/a.txt".to_string(), vec![1, 0, 2]);
    fwd.set_doc("dir/b.txt".to_string(), vec![2]);
    let text = serialize_matrix(&fwd);
    let back = parse_matrix(text.as_str()).expect("the written table should read back");
    assert_eq!(back.len(), 2);
    assert_eq!(doc_words(&back, "dir/a.txt"), [0u32, 1, 2].into_iter().collect());
    assert_eq!(doc_words(&back, "dir/b.txt"), [2u32].into_iter().collect());
}

#[test]
fn matrix_rejects_bad_fields() {
    assert!(matches!(parse_matrix("a.txt\t1 x\n"), Err(PersistError::BadNumber)));
    assert!(matches!(parse_matrix("a.txt\t1\n\nb.txt\t2\n"), Err(PersistError::EmptyLine)));
    assert!(matches!(parse_matrix("a.txt\t4294967296\n"), Err(PersistError::BadNumber)));
}

#[test]
fn matrix_later_line_replaces_earlier() {
    let back = parse_matrix("a.txt\t1\na.txt\t2\n").expect("should read");
    assert_eq!(back.len(), 1);
    assert_eq!(doc_words(&back, "a.txt"), [2u32].into_iter().collect());
}

#[test]
fn matrix_ignores_duplicate_ids_in_a_line() {
    let back = parse_matrix("a.txt\t3 3 3\n").expect("should read");
    assert_eq!(doc_words(&back, "a.txt"), [3u32].into_iter().collect());
}
