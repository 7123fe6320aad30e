use laplace::summary::{estimate_tokens, join_strings, split_lines};

#[test]
fn cjk_counts_as_full_tokens() {
    assert_eq!(estimate_tokens("孙悟空大闹天宫再闹天宫"), 11);
    assert_eq!(estimate_tokens("abcdefgh"), 2);
}

#[test]
fn token_estimate_rounds_ascii_up() {
    assert_eq!(estimate_tokens(""), 0);
    assert_eq!(estimate_tokens("abc"), 1);
    assert_eq!(estimate_tokens("abcde"), 2);
    assert_eq!(estimate_tokens("孙a"), 2);
}

#[test]
fn join_and_split_lines() {
    let parts = vec!["a".to_string(), "b".to_string(), "c".to_string()];
    assert_eq!(join_strings(&parts, ", "), "a, b, c");
    assert_eq!(join_strings(&Vec::new(), ", "), "");
    assert_eq!(split_lines("one\ntwo\r\nthree"), vec!["one".to_string(), "two".to_string(), "three".to_string()]);
}
