use passvar::input::trim_line;
use passvar::output::emitted;
use passvar::{
    count_typeable_chars, generate_variations, output_lines, passwords_from_lines, total_count,
    Config, Source,
};

fn request(password: Option<&str>, stdin: bool, keep: bool, d: usize, t: usize) -> Config {
    Config {
        password: password.map(|p| p.to_string()),
        stdin,
        max_distance: d,
        transposition_distance: t,
        include_original: keep,
        count: false,
    }
}

fn strings(items: &[&str]) -> Vec<String> {
    items.iter().map(|s| s.to_string()).collect()
}

#[test]
fn a_named_password_goes_before_standard_input() {
    assert!(matches!(request(Some("pw"), false, false, 1, 1).source(), Source::Password));
    assert!(matches!(request(Some("pw"), true, false, 1, 1).source(), Source::Password));
    assert!(matches!(request(None, true, false, 1, 1).source(), Source::StandardInput));
    assert!(matches!(request(None, false, false, 1, 1).source(), Source::Missing));
}

#[test]
fn lines_are_trimmed_and_blank_ones_skipped() {
    let lines = strings(&["  abc  ", "", "   ", "\tx y\r", "\u{e9}\u{a0}", "plain"]);
    assert_eq!(passwords_from_lines(&lines), strings(&["abc", "x y", "\u{e9}", "plain"]));
    assert_eq!(passwords_from_lines(&strings(&[])), strings(&[]));
    assert_eq!(passwords_from_lines(&strings(&[" ", "\t"])), strings(&[]));
}

#[test]
fn trim_line_keeps_inner_white_space() {
    let w = |s: &str| -> Vec<char> { s.chars().collect() };
    assert_eq!(trim_line(&w(" a b ")), w("a b"));
    assert_eq!(trim_line(&w("a")), w("a"));
    assert_eq!(trim_line(&w("\u{2003}a\u{3000}")), w("a"));
    assert_eq!(trim_line(&w(" \n ")), w(""));
    assert_eq!(trim_line(&w("")), w(""));
}

#[test]
fn emission_takes_the_passwords_in_turn() {
    let passwords = strings(&["ab", "c"]);
    let bare = emitted(&passwords, &request(None, true, false, 1, 1));
    let mut expected = generate_variations("ab", 1, 1);
    expected.extend(generate_variations("c", 1, 1));
    assert_eq!(bare, expected);

    let kept = emitted(&passwords, &request(None, true, true, 1, 1));
    let mut expected = vec!["ab".to_string()];
    expected.extend(generate_variations("ab", 1, 1));
    expected.push("c".to_string());
    expected.extend(generate_variations("c", 1, 1));
    assert_eq!(kept, expected);
}

#[test]
fn output_is_ordered_by_typeable_characters() {
    let passwords = strings(&["ab"]);
    let config = request(Some("ab"), false, true, 1, 1);
    let out = output_lines(&passwords, &config);
    assert_eq!(out.len(), emitted(&passwords, &config).len());
    assert!(out.windows(2).all(|p| count_typeable_chars(&p[0]) <= count_typeable_chars(&p[1])));
    // One typeable character: the two deletions. Then the password itself,
    // put first among the entries of two.
    assert_eq!(out[0], "a");
    assert_eq!(out[1], "b");
    assert_eq!(out[2], "ab");
    // "a!" with its two characters swapped.
    assert_eq!(out[3], "!a");
    assert_eq!(out[4], "!b");
}

#[test]
fn entries_of_one_key_keep_their_order() {
    let passwords = strings(&["\u{e9}"]);
    let config = request(None, true, false, 1, 0);
    let before = emitted(&passwords, &config);
    let out = output_lines(&passwords, &config);
    for key in 0..3 {
        let was: Vec<&String> =
            before.iter().filter(|e| count_typeable_chars(e) == key).collect();
        let is: Vec<&String> = out.iter().filter(|e| count_typeable_chars(e) == key).collect();
        assert_eq!(was, is);
    }
    assert_eq!(out[0], "");
    assert_eq!(out[1], "\u{e9}");
    assert_eq!(out[2], "!");
}

#[test]
fn total_count_sums_the_contributions() {
    let one = strings(&["a"]);
    assert_eq!(total_count(&one, &request(Some("a"), false, false, 1, 1)), Some(282));
    assert_eq!(total_count(&one, &request(Some("a"), false, true, 1, 1)), Some(283));
    let two = strings(&["a", "abc"]);
    let n = generate_variations("abc", 1, 1).len() as u64;
    assert_eq!(total_count(&two, &request(None, true, true, 1, 1)), Some(283 + 1 + n));
    assert_eq!(total_count(&strings(&[]), &request(None, true, true, 1, 1)), Some(0));
}
