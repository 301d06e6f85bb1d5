use passvar::order::{copy_word, merge_union, push_word, rank, sorted_range, sorted_set, Rank};
use passvar::ranking::{count_typeable_chars, typeable};
use passvar::text::{to_chars, to_text, to_texts};
use passvar::Config;

fn list(items: &[&str]) -> Vec<Vec<char>> {
    items.iter().map(|s| s.chars().collect()).collect()
}

#[test]
fn rank_follows_dictionary_order() {
    let w = |s: &str| -> Vec<char> { s.chars().collect() };
    assert!(matches!(rank(&w("a"), &w("b")), Rank::Before));
    assert!(matches!(rank(&w("b"), &w("a")), Rank::After));
    assert!(matches!(rank(&w("ab"), &w("ab")), Rank::Same));
    assert!(matches!(rank(&w(""), &w("")), Rank::Same));
    assert!(matches!(rank(&w(""), &w("a")), Rank::Before));
    assert!(matches!(rank(&w("ab"), &w("a")), Rank::After));
    assert!(matches!(rank(&w("ab"), &w("b")), Rank::Before));
    assert!(matches!(rank(&w("z"), &w("\u{e9}")), Rank::Before));
}

#[test]
fn merge_union_keeps_each_word_once() {
    let a = list(&["a", "c", "e"]);
    let b = list(&["b", "c", "d", "f"]);
    assert_eq!(merge_union(&a, &b), list(&["a", "b", "c", "d", "e", "f"]));
    assert_eq!(merge_union(&a, &list(&[])), a);
    assert_eq!(merge_union(&list(&[]), &b), b);
}

#[test]
fn sorted_set_orders_and_drops_repeats() {
    let raw = list(&["b", "a", "b", "", "ab", "a"]);
    assert_eq!(sorted_set(&raw), list(&["", "a", "ab", "b"]));
    assert_eq!(sorted_range(&raw, 1, 3), list(&["a", "b"]));
    assert_eq!(sorted_range(&raw, 2, 2), list(&[]));
    assert_eq!(sorted_set(&list(&[])), list(&[]));
}

#[test]
fn push_word_appends() {
    let mut v = list(&["x"]);
    push_word(&mut v, copy_word(&vec!['y', 'z']));
    assert_eq!(v, list(&["x", "yz"]));
}

#[test]
fn text_passes_to_characters_and_back() {
    assert_eq!(to_chars("h\u{e9}!"), vec!['h', '\u{e9}', '!']);
    assert_eq!(to_chars(""), Vec::<char>::new());
    assert_eq!(to_text(&vec!['a', 'b']), "ab".to_string());
    assert_eq!(to_text(&vec![]), String::new());
    assert_eq!(to_texts(&list(&["ab", "", "c"])), vec!["ab".to_string(), String::new(), "c".to_string()]);
}

#[test]
fn typeable_characters_are_counted() {
    assert_eq!(count_typeable_chars(""), 0);
    assert_eq!(count_typeable_chars("abc 1!"), 5);
    assert_eq!(count_typeable_chars("\u{e9}~ \t"), 1);
    assert_eq!(count_typeable_chars("!\"#$%&'()*+,-./:;<=>?@[\\]^_`{|}~"), 32);
    assert_eq!(count_typeable_chars("azAZ09"), 6);
}

#[test]
fn typeable_ends_at_the_printable_range() {
    assert!(typeable('!'));
    assert!(typeable('~'));
    assert!(!typeable(' '));
    assert!(!typeable('\u{7f}'));
    assert!(!typeable('\u{e9}'));
}

#[test]
fn config_holds_a_request() {
    let config = Config {
        password: Some("secret".to_string()),
        stdin: false,
        max_distance: 1,
        transposition_distance: 1,
        include_original: true,
        count: false,
    };
    assert_eq!(config.password.as_deref(), Some("secret"));
    assert_eq!(config.max_distance + config.transposition_distance, 2);
    assert!(config.include_original && !config.stdin && !config.count);
}
