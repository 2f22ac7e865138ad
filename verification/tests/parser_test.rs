use std::collections::HashSet;

use jsearch::{ForwardIndex, Parser, QueryError, QueryToken, WordDictionary};

/// Builds a dictionary whose form `forms[i]` has identifier `i`.
fn dict_of(forms: &[&str]) -> WordDictionary {
    let mut d = WordDictionary::new();
    for f in forms {
        d.intern(&f.to_string());
    }
    d
}

/// Builds a forward index from `(path, word ids)` pairs.
fn index_of(docs: &[(&str, &[u32])]) -> ForwardIndex {
    let mut fwd = ForwardIndex::new();
    for (path, ids) in docs {
        fwd.set_doc(path.to_string(), ids.to_vec());
    }
    fwd
}

/// Splits and classifies a query; every term stands for itself.
fn tokens_of(q: &str) -> Vec<QueryToken> {
    let mut toks = Vec::new();
    for w in jsearch::split_query(q) {
        match jsearch::classify_word(&w) {
            Some(tok) => toks.push(tok),
            None => toks.push(QueryToken::Term(vec![w])),
        }
    }
    toks
}

fn set_of(items: &[&str]) -> HashSet<String> {
    items.iter().map(|s| s.to_string()).collect()
}

fn result_set(r: Result<Vec<String>, QueryError>) -> HashSet<String> {
    r.expect("query should parse").into_iter().collect()
}

fn simple() {
    // {"今日": 1, "は": 2}: identifier 0 is taken by an unused form
    let dict = dict_of(&["未使用", "今日", "は"]);
    let fwd = index_of(&[("kyoha.txt", &[1, 2]), ("ha.txt", &[1])]);
    let parser = Parser::new(dict, fwd);
    // the term 今日は expands to the forms 今日 and は
    let toks = vec![QueryToken::Term(vec!["今日".to_string(), "は".to_string()])];
    let result = result_set(parser.parse(&toks));
    assert_eq!(result, set_of(&["kyoha.txt"]));
}

fn eight_word_dict() -> WordDictionary {
    dict_of(&["未使用", "今日", "は", "良い", "天気", "でし", "です", "た", "悪い"])
}

fn and() {
    let dict = eight_word_dict();
    let fwd = index_of(&[
        ("bad.txt", &[1, 2, 8, 4, 5, 6, 7]),
        ("good.txt", &[1, 2, 3, 4, 5, 6, 7]),
    ]);
    let parser = Parser::new(dict, fwd);
    let result = result_set(parser.parse(&tokens_of("今日 AND 良い AND 天気")));
    assert_eq!(result, set_of(&["good.txt"]));
}

fn or() {
    let dict = eight_word_dict();
    let fwd = index_of(&[
        ("bad.txt", &[1, 2, 8, 4, 5, 6, 7]),
        ("good.txt", &[1, 2, 3, 4, 5, 6, 7]),
    ]);
    let parser = Parser::new(dict, fwd);
    let result = result_set(parser.parse(&tokens_of("今日 AND ( 良い OR 悪い ) AND 天気")));
    assert_eq!(result, set_of(&["good.txt", "bad.txt"]));
}

/// Six words over 64 documents: document `file<n>.txt` contains word `w`
/// exactly when bit `w - 1` of `n` is set.
fn complex_index() -> (WordDictionary, ForwardIndex) {
    let dict = dict_of(&["未使用", "優子", "愛子", "涼子", "恵子", "真知子", "和美"]);
    let mut fwd = ForwardIndex::new();
    for no in 0u32..64 {
        let mut ids = Vec::new();
        for w in 1u32..=6 {
            if no & (1 << (w - 1)) != 0 {
                ids.push(w);
            }
        }
        fwd.set_doc(format!("file{}.txt", no), ids);
    }
    (dict, fwd)
}

fn files(ids: &[u32]) -> HashSet<String> {
    ids.iter().map(|id| format!("file{}.txt", id)).collect()
}

fn complex1() {
    let (dict, fwd) = complex_index();
    let parser = Parser::new(dict, fwd);
    let result = result_set(parser.parse(&tokens_of("( 優子 AND 恵子 ) ( 愛子 OR 涼子 )")));
    assert_eq!(result, files(&[11, 13, 15, 27, 29, 31, 43, 45, 47, 59, 61, 63]));
}

fn complex2() {
    let (dict, fwd) = complex_index();
    let parser = Parser::new(dict, fwd);
    let result = result_set(parser.parse(&tokens_of("NOT ( 優子 AND 恵子 ) ( 愛子 OR 涼子 )")));
    let expected = files(&[
        2, 3, 4, 5, 6, 7, 10, 12, 14, 18, 19, 20, 21, 22, 23, 26, 28, 30, 34, 35, 36, 37, 38, 39,
        42, 44, 46, 50, 51, 52, 53, 54, 55, 58, 60, 62,
    ]);
    assert_eq!(result, expected);
}

fn complex3() {
    let (dict, fwd) = complex_index();
    let parser = Parser::new(dict, fwd);
    let result = result_set(parser.parse(&tokens_of("NOT ( 優子 AND 恵子 ) AND ( 愛子 OR 涼子 )")));
    let expected = files(&[
        2, 3, 4, 5, 6, 7, 10, 12, 14, 18, 19, 20, 21, 22, 23, 26, 28, 30, 34, 35, 36, 37, 38, 39,
        42, 44, 46, 50, 51, 52, 53, 54, 55, 58, 60, 62,
    ]);
    assert_eq!(result, expected);
}

#[test]
fn parser_test() {
    simple();
    and();
    or();
    complex1();
    complex2();
    complex3();
}

#[test]
fn unmatched_paren_is_syntax_error() {
    let (dict, fwd) = complex_index();
    let parser = Parser::new(dict, fwd);
    let r = parser.parse(&tokens_of("( 優子"));
    assert_eq!(r, Err(QueryError::Syntax));
}

#[test]
fn trailing_operator_is_syntax_error() {
    let (dict, fwd) = complex_index();
    let parser = Parser::new(dict, fwd);
    assert_eq!(parser.parse(&tokens_of("優子 OR")), Err(QueryError::Syntax));
    assert_eq!(parser.parse(&tokens_of("")), Err(QueryError::Syntax));
}

#[test]
fn unknown_word_matches_nothing() {
    let (dict, fwd) = complex_index();
    let parser = Parser::new(dict, fwd);
    let r = result_set(parser.parse(&tokens_of("花子")));
    assert!(r.is_empty());
    // and it forces any conjunction containing it to nothing
    let r = result_set(parser.parse(&tokens_of("優子 AND 花子")));
    assert!(r.is_empty());
}

#[test]
fn implicit_and_equals_explicit_and() {
    let (dict, fwd) = complex_index();
    let parser = Parser::new(dict, fwd);
    let implicit = result_set(parser.parse(&tokens_of("優子 恵子")));
    let (dict, fwd) = complex_index();
    let parser = Parser::new(dict, fwd);
    let explicit = result_set(parser.parse(&tokens_of("優子 AND 恵子")));
    assert_eq!(implicit, explicit);
}

#[test]
fn or_is_commutative_and_associative() {
    let queries = [
        "優子 OR 愛子 OR 涼子",
        "( 優子 OR 愛子 ) OR 涼子",
        "優子 OR ( 愛子 OR 涼子 )",
        "涼子 OR 愛子 OR 優子",
    ];
    let mut results = Vec::new();
    for q in queries {
        let (dict, fwd) = complex_index();
        let parser = Parser::new(dict, fwd);
        results.push(result_set(parser.parse(&tokens_of(q))));
    }
    assert_eq!(results[0], results[1]);
    assert_eq!(results[0], results[2]);
    assert_eq!(results[0], results[3]);
}

#[test]
fn not_is_complement_against_universe() {
    let (dict, fwd) = complex_index();
    let parser = Parser::new(dict, fwd);
    let pos = result_set(parser.parse(&tokens_of("優子 AND 恵子")));
    let (dict, fwd) = complex_index();
    let parser = Parser::new(dict, fwd);
    let neg = result_set(parser.parse(&tokens_of("NOT ( 優子 AND 恵子 )")));
    let universe: HashSet<String> = (0u32..64).map(|n| format!("file{}.txt", n)).collect();
    assert!(pos.is_disjoint(&neg));
    let both: HashSet<String> = pos.union(&neg).cloned().collect();
    assert_eq!(both, universe);
}

#[test]
fn lone_not_returns_non_matching_documents() {
    let (dict, fwd) = complex_index();
    let parser = Parser::new(dict, fwd);
    let r = result_set(parser.parse(&tokens_of("NOT 優子")));
    let expected: HashSet<String> =
        (0u32..64).filter(|n| n & 1 == 0).map(|n| format!("file{}.txt", n)).collect();
    assert_eq!(r, expected);
}

#[test]
fn parse_plain_evaluates_query_strings() {
    let (dict, fwd) = complex_index();
    let parser = Parser::new(dict, fwd);
    let r = parser.parse_plain("( 優子 AND 恵子 ) ( 愛子 OR 涼子 )").expect("should parse");
    let r: HashSet<String> = r.into_iter().collect();
    assert_eq!(r, files(&[11, 13, 15, 27, 29, 31, 43, 45, 47, 59, 61, 63]));
    assert_eq!(parser.parse_plain("( 優子"), Err(QueryError::Syntax));
}
