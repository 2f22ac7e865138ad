use jsearch::{
    classify_word, get_q, index_file_path, make_summary_text, replace_lf, split_query,
    trim_spaces, QueryToken, Responder, ResultFile,
};

#[test]
fn splitting_queries() {
    assert_eq!(split_query("a b"), vec!["a".to_string(), "b".to_string()]);
    assert_eq!(
        split_query("  ( 優子 AND 恵子 )  "),
        vec!["(".to_string(), "優子".to_string(), "AND".to_string(), "恵子".to_string(), ")".to_string()]
    );
    assert!(split_query("").is_empty());
    assert!(split_query(" \t\n ").is_empty());
    assert_eq!(split_query("a\tb\nc"), vec!["a".to_string(), "b".to_string(), "c".to_string()]);
}

#[test]
fn classifying_words() {
    assert!(matches!(classify_word(&"AND".to_string()), Some(QueryToken::And)));
    assert!(matches!(classify_word(&"OR".to_string()), Some(QueryToken::Or)));
    assert!(matches!(classify_word(&"NOT".to_string()), Some(QueryToken::Not)));
    assert!(matches!(classify_word(&"(".to_string()), Some(QueryToken::LParen)));
    assert!(matches!(classify_word(&")".to_string()), Some(QueryToken::RParen)));
    assert!(classify_word(&"and".to_string()).is_none());
    assert!(classify_word(&"今日".to_string()).is_none());
}

#[test]
fn replacing_line_breaks() {
    let s = "a\nb\rc\td ".to_string();
    assert_eq!(replace_lf(&s).as_str(), "a b c d ");
    let s = "そのまま".to_string();
    assert_eq!(replace_lf(&s).as_str(), "そのまま");
}

#[test]
fn trimming() {
    assert_eq!(trim_spaces("  今日 は  ").as_str(), "今日 は");
    assert_eq!(trim_spaces("title").as_str(), "title");
    assert_eq!(trim_spaces(" \t\r\n ").as_str(), "");
    assert_eq!(trim_spaces("").as_str(), "");
    // the whole Unicode white-space set is trimmed, as str::trim does
    assert_eq!(trim_spaces("\u{3000}題名\u{3000}").as_str(), "題名");
    assert_eq!(trim_spaces("\u{000B}a\u{00A0}\u{2028}").as_str(), "a");
    assert_eq!(trim_spaces(" \u{0085}x y\u{205F}").as_str(), "x y");
    assert_eq!(trim_spaces("  題 "), "  題 ".trim());
    assert_eq!(trim_spaces("\u{3000}\u{000B} 題\u{1680}"), "\u{3000}\u{000B} 題\u{1680}".trim());
}

#[test]
fn building_urls() {
    let r = ResultFile::make_url(&"/home/user/split/202208/20220805p01.est".to_string());
    assert_eq!(r.as_str(), "http://localhost/20220805p01");
    assert_eq!(ResultFile::make_url(&"plain".to_string()).as_str(), "http://localhost/plain");
    assert_eq!(ResultFile::make_url(&"a/b.tar.gz".to_string()).as_str(), "http://localhost/b.tar");
    assert_eq!(ResultFile::make_url(&"a/.hidden".to_string()).as_str(), "http://localhost/.hidden");
    // trailing slashes are ignored, as the standard path reader does
    assert_eq!(ResultFile::make_url(&"a/b/".to_string()).as_str(), "http://localhost/b");
    assert_eq!(ResultFile::make_url(&"a/c.est//".to_string()).as_str(), "http://localhost/c");
}

#[test]
fn building_results() {
    let r = ResultFile::new(
        "/d/x.est".to_string(),
        "題".to_string(),
        "概要 ".to_string(),
    );
    assert_eq!(r.path.as_str(), "/d/x.est");
    assert_eq!(r.url.as_str(), "http://localhost/x");
    assert_eq!(r.title.as_str(), "題");
    assert_eq!(r.summary.as_str(), "概要 ");
}

#[test]
fn summaries_join_trimmed_lines() {
    let lines = vec![" 一行目 ".to_string(), "".to_string(), "二行目\t".to_string()];
    assert_eq!(make_summary_text(&lines).as_str(), "一行目  二行目 ");
    let lines = vec!["\u{3000}字間\u{3000}".to_string()];
    assert_eq!(make_summary_text(&lines).as_str(), "字間 ");
}

#[test]
fn internal_error_body() {
    let r = Responder::new();
    assert_eq!(r.make_internal_error().as_str(), "internal error");
}

#[test]
fn index_file_paths() {
    assert_eq!(index_file_path("/idx", "words", "").as_str(), "/idx/index.words.txt");
    assert_eq!(index_file_path("/idx", "matrix", ".new").as_str(), "/idx/index.matrix.txt.new");
}

#[test]
fn query_parameter_extraction() {
    assert_eq!(get_q("q=foo&x=bar"), Some("foo".to_string()));
    assert_eq!(get_q("x=bar&q=foo"), Some("foo".to_string()));
    assert_eq!(get_q("x=bar"), None);
    assert_eq!(get_q(""), None);
    // decoding happens: pluses and percent escapes become text
    assert_eq!(get_q("q=a+b"), Some("a b".to_string()));
    assert_eq!(get_q("q=%E5%84%AA%E5%AD%90"), Some("優子".to_string()));
    // the first q field wins
    assert_eq!(get_q("q=one&q=two"), Some("one".to_string()));
}
