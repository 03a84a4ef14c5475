use neurotask::idset::IdSet;
use neurotask::text::{
    all_digits, all_id_chars, chars_of, contains, decimal, join, replace, same, scoped,
};

#[test]
fn numbers_are_written_in_decimal() {
    assert_eq!(decimal(0), "0");
    assert_eq!(decimal(7), "7");
    assert_eq!(decimal(10), "10");
    assert_eq!(decimal(4096), "4096");
    assert_eq!(decimal(usize::MAX), usize::MAX.to_string());
}

#[test]
fn names_are_scoped_with_a_tilde() {
    assert_eq!(scoped("T", "1"), "T~1");
    assert_eq!(scoped("", ""), "~");
    assert_eq!(join("ab", "cd"), "abcd");
}

#[test]
fn texts_are_searched_and_replaced() {
    assert!(contains("say {{word}}", "{{word}}"));
    assert!(contains("abc", ""));
    assert!(contains("", ""));
    assert!(!contains("ab", "abc"));
    assert!(!contains("say {word}", "{{"));
    assert!(contains("äöü", "öü"));
    assert_eq!(replace("aaa", "aa", "b"), "ba");
    assert_eq!(replace("abcabc", "bc", ""), "aa");
    assert_eq!(replace("abc", "", "x"), "abc");
    assert_eq!(replace("abc", "abcd", "x"), "abc");
    assert_eq!(replace("für {{x}} und {{x}}", "{{x}}", "ö"), "für ö und ö");
}

#[test]
fn characters_are_classified() {
    assert!(all_id_chars("Az09_-"));
    assert!(all_id_chars(""));
    assert!(!all_id_chars("a.b"));
    assert!(!all_id_chars("é"));
    assert!(all_digits("0123456789"));
    assert!(!all_digits("12a"));
    assert!(same("abc", "abc"));
    assert!(!same("abc", "abd"));
    assert_eq!(chars_of("aé"), vec!['a', 'é']);
}

#[test]
fn sets_keep_each_name_once_in_the_order_of_arrival() {
    let mut set = IdSet::new();
    assert!(set.is_empty());
    assert!(set.insert("b".to_string()));
    assert!(set.insert("a".to_string()));
    assert!(!set.insert("b".to_string()));
    assert_eq!(set.len(), 2);
    assert_eq!(set.to_vec(), vec!["b".to_string(), "a".to_string()]);
    assert!(set.contains("a"));
    assert!(!set.contains("c"));
    assert_eq!(set.get(1), "a");
    let mut other = IdSet::from_vec(&vec!["c".to_string(), "a".to_string(), "c".to_string()]);
    assert_eq!(other.to_vec(), vec!["c".to_string(), "a".to_string()]);
    other.extend(&set);
    assert_eq!(other.to_vec(), vec!["c".to_string(), "a".to_string(), "b".to_string()]);
    assert!(other.remove("a"));
    assert!(!other.remove("a"));
    assert_eq!(other.to_vec(), vec!["c".to_string(), "b".to_string()]);
    assert_eq!(other.clone().to_vec(), other.to_vec());
    assert_eq!(IdSet::single("x".to_string()).to_vec(), vec!["x".to_string()]);
}
