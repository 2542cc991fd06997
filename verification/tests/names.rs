use git_fat::names::NameSet;
use git_fat::text::{
    contains_doubled, decimal_text, lines, right_aligned_decimal, same_bytes, same_text, split_first,
};

fn set(names: &[&str]) -> NameSet {
    let mut res = NameSet::new();
    for name in names {
        res.insert(name.to_string());
    }
    res
}

#[test]
fn a_set_keeps_each_name_once() {
    let mut names = NameSet::new();
    assert!(names.is_empty());
    assert!(names.insert("b".to_string()));
    assert!(names.insert("a".to_string()));
    assert!(!names.insert("b".to_string()));
    assert_eq!(names.len(), 2);
    assert_eq!(names.items(), &vec!["b".to_string(), "a".to_string()]);
    assert!(names.contains("a"));
    assert!(!names.contains("c"));
    assert!(!names.is_empty());
}

#[test]
fn intersection_and_difference_divide_a_set() {
    let a = set(&["x", "y", "z"]);
    let b = set(&["z", "x", "w"]);
    assert_eq!(a.intersection(&b).items(), &vec!["x".to_string(), "z".to_string()]);
    assert_eq!(a.difference(&b).items(), &vec!["y".to_string()]);
    assert_eq!(b.difference(&a).items(), &vec!["w".to_string()]);
}

#[test]
fn lines_end_as_the_standard_library_says() {
    for text in ["", "\n", "a", "a\n", "a\nb", "a\r\nb\r", "\r\r\n\rx\r\n", "a\n\nb\n\n", "\u{e9}\n\u{1f600}"] {
        let expected: Vec<String> = text.lines().map(|line| line.to_string()).collect();
        assert_eq!(lines(text), expected);
    }
    assert_eq!(lines("a\r\nb\nc"), vec!["a".to_string(), "b".to_string(), "c".to_string()]);
}

#[test]
fn numbers_are_written_in_decimal() {
    assert_eq!(decimal_text(0), "0");
    assert_eq!(decimal_text(1024), "1024");
    assert_eq!(decimal_text(usize::MAX), usize::MAX.to_string());
    assert_eq!(right_aligned_decimal(42, 5), "   42");
    assert_eq!(right_aligned_decimal(123456, 5), "123456");
}

#[test]
fn texts_are_compared_and_split() {
    assert!(same_text("abc", "abc"));
    assert!(!same_text("abc", "abd"));
    assert!(!same_text("abc", "ab"));
    assert!(same_bytes(b"", b""));
    assert!(contains_doubled("host::module", ':'));
    assert!(!contains_doubled("host:path:x", ':'));
    assert!(!contains_doubled(":", ':'));
    assert_eq!(split_first("rsync.remote", '.'), "rsync");
    assert_eq!(split_first("rsync", '.'), "rsync");
    assert_eq!(split_first(".x", '.'), "");
}
