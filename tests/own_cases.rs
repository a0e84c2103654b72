use log_word_analyzer::order::word_lt;
use log_word_analyzer::rank::{ranks_first, tally, top_k_words};
use log_word_analyzer::tokenize::{is_word, split_words};

fn lines(v: &[&str]) -> Vec<String> {
    v.iter().map(|s| s.to_string()).collect()
}

fn pair(w: &str, c: usize) -> (String, usize) {
    (w.to_string(), c)
}

#[test]
fn length_is_min_of_k_and_distinct() {
    let logs = lines(&["a b c", "a b", "a"]);
    assert_eq!(top_k_words(&logs, 0).len(), 0);
    assert_eq!(top_k_words(&logs, 2).len(), 2);
    assert_eq!(top_k_words(&logs, 3).len(), 3);
    assert_eq!(top_k_words(&logs, 7).len(), 3);
}

#[test]
fn output_strictly_ranked() {
    let logs = lines(&["b a c b", "c d e a", "f b a z", "9 10 9"]);
    let r = top_k_words(&logs, 100);
    for w in r.windows(2) {
        let (a, b) = (&w[0], &w[1]);
        assert!(a.1 > b.1 || (a.1 == b.1 && a.0 < b.0));
    }
    assert_eq!(r[0], pair("a", 3));
    assert_eq!(r[1], pair("b", 3));
    assert_eq!(r[2], pair("9", 2));
    assert_eq!(r[3], pair("c", 2));
}

#[test]
fn full_list_counts_sum_to_token_total() {
    let logs = lines(&["x, y; x!", "--z--", "y y", ""]);
    let r = top_k_words(&logs, 10);
    let total: usize = r.iter().map(|e| e.1).sum();
    assert_eq!(total, 6);
    assert_eq!(r, vec![pair("y", 3), pair("x", 2), pair("z", 1)]);
}

#[test]
fn case_variants_are_one_token() {
    let logs = lines(&["Error", "error", "ERROR", "eRRoR"]);
    assert_eq!(top_k_words(&logs, 5), vec![pair("error", 4)]);
}

#[test]
fn delimiter_runs_split_once() {
    assert_eq!(split_words("a,,,;;  b"), split_words("a b"));
    assert_eq!(split_words("--alpha...beta!!"), vec!["alpha".to_string(), "beta".to_string()]);
    assert_eq!(split_words("!?;"), Vec::<String>::new());
    assert_eq!(split_words(""), Vec::<String>::new());
}

#[test]
fn rerun_gives_identical_output() {
    let logs = lines(&["q w e r t y", "y t r e w q", "a"]);
    let first = top_k_words(&logs, 4);
    let second = top_k_words(&logs, 4);
    assert_eq!(first, second);
    assert_eq!(first, vec![pair("e", 2), pair("q", 2), pair("r", 2), pair("t", 2)]);
}

#[test]
fn split_words_folds_capitals() {
    assert_eq!(split_words("ABC Def9"), vec!["abc".to_string(), "def9".to_string()]);
}

#[test]
fn non_ascii_characters_are_delimiters() {
    assert_eq!(split_words("Straße"), vec!["stra".to_string(), "e".to_string()]);
    assert_eq!(split_words("\u{212A}elvin caf\u{e9}"), vec!["elvin".to_string(), "caf".to_string()]);
}

#[test]
fn numbers_sort_by_bytes() {
    let logs = lines(&["10 9 100"]);
    assert_eq!(top_k_words(&logs, 3), vec![pair("10", 1), pair("100", 1), pair("9", 1)]);
}

#[test]
fn is_word_classifies_ascii_alphanumerics() {
    assert!(is_word('a'));
    assert!(is_word('Z'));
    assert!(is_word('5'));
    assert!(!is_word('-'));
    assert!(!is_word(' '));
    assert!(!is_word('é'));
}

#[test]
fn word_lt_is_lexicographic() {
    assert!(word_lt("abc", "abd"));
    assert!(word_lt("ab", "abc"));
    assert!(word_lt("123", "abc"));
    assert!(!word_lt("abc", "abc"));
    assert!(!word_lt("b", "abc"));
    assert!(word_lt("", "a"));
}

#[test]
fn ranks_first_orders_by_count_then_word() {
    assert!(ranks_first(&pair("zeta", 3), &pair("alpha", 2)));
    assert!(ranks_first(&pair("alpha", 2), &pair("beta", 2)));
    assert!(!ranks_first(&pair("beta", 2), &pair("alpha", 2)));
    assert!(!ranks_first(&pair("alpha", 2), &pair("alpha", 2)));
}

#[test]
fn tally_counts_each_token_once() {
    let logs = lines(&["b a b", "A"]);
    let mut t = tally(&logs);
    t.sort();
    assert_eq!(t, vec![pair("a", 2), pair("b", 2)]);
}
