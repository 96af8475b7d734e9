use tuikit::search::contains_str;
use tuikit::search::find_contains;

#[test]
fn find_contains_test() {
    assert_eq!(
        find_contains(&["hello", "world"], "l"),
        vec!["hello", "world"]
    );
    assert_eq!(find_contains(&["hello", "world"], "ld"), vec!["world"]);
    assert_eq!(find_contains(&["hello", "world"], "ll"), vec!["hello"]);
}

#[test]
fn find_contains_empty_haystack() {
    let empty: Vec<String> = vec![];
    assert_eq!(find_contains(&[], "x"), empty);
}

#[test]
fn find_contains_empty_needle() {
    assert_eq!(find_contains(&["a", ""], ""), vec!["a", ""]);
}

#[test]
fn contains_str_cases() {
    assert!(contains_str("abcde", "cd"));
    assert!(contains_str("abcde", ""));
    assert!(contains_str("abcde", "abcde"));
    assert!(!contains_str("abcde", "abcdef"));
    assert!(!contains_str("abcde", "ce"));
    assert!(!contains_str("", "a"));
}
