use passvar::generator::{
    expand_all, raw_candidates, swap_all, transposed_words, variation_words,
};
use passvar::{
    generate_distance_1_variations, generate_transposition_variations, generate_variations,
};

fn word(s: &str) -> Vec<char> {
    s.chars().collect()
}

fn strictly_ascending(list: &[String]) -> bool {
    list.windows(2).all(|pair| pair[0] < pair[1])
}

#[test]
fn test_distance_1_variations() {
    let variations = generate_distance_1_variations("a");

    // Check for substitutions
    assert!(variations.contains(&"b".to_string()));

    // Check for deletions
    assert!(variations.contains(&"".to_string()));

    // Check for insertions
    assert!(variations.contains(&"aa".to_string()));
    assert!(variations.contains(&"ba".to_string()));

    // No single edit gives the word back
    assert!(!variations.contains(&"a".to_string()));
}

#[test]
fn test_variations_count_simple() {
    let variations = generate_variations("a", 1, 1);

    // For "a", we expect:
    // - 93 substitutions (printable ASCII without 'a')
    // - 1 deletion (empty string)
    // - 94 insertions before 'a' (all printable ASCII)
    // - 94 insertions after 'a' (all printable ASCII)
    assert_eq!(variations.len(), 93 + 1 + 94 + 94);
}

#[test]
fn test_distance_2_variations() {
    let password = "a";
    let variations = generate_variations(password, 2, 1);

    // Check for a distance 2 variation: substitute 'a' -> 'b' and then insert 'c'
    assert!(variations.contains(&"bc".to_string()) || variations.contains(&"cb".to_string()));

    // Should be a lot more variations with distance 2
    assert!(variations.len() > 1000);
}

#[test]
fn test_transposition_variations() {
    // Test adjacent character swap (offset = 1)
    let variations = generate_transposition_variations("password", 1);
    assert!(variations.contains(&"apssword".to_string())); // 'p' and 'a' swapped
    assert!(variations.contains(&"psasword".to_string())); // 's' and 'a' swapped
    assert!(variations.contains(&"passwrod".to_string())); // 'o' and 'd' swapped
    assert_eq!(variations.len(), 7); // 8-character password has 7 possible adjacent swaps

    // Test offset = 2
    let variations = generate_transposition_variations("abc", 2);
    assert!(variations.contains(&"cba".to_string())); // 'a' and 'c' swapped
    assert_eq!(variations.len(), 1); // Only one possible transposition with offset=2 in 3-character string

    // Test with password shorter than offset
    let variations = generate_transposition_variations("ab", 2);
    assert_eq!(variations.len(), 0); // No variations possible
}

#[test]
fn test_transpositions_included_in_variations() {
    let variations = generate_variations("abc", 1, 1);
    // Should include transpositions with offset=1
    assert!(variations.contains(&"bac".to_string()));
    assert!(variations.contains(&"acb".to_string()));
}

#[test]
fn test_transposition_distance_parameter() {
    // With transposition_distance = 0, no transpositions should be included
    let variations_no_trans = generate_variations("abcde", 1, 0);
    assert!(!variations_no_trans.contains(&"bacde".to_string())); // No adjacent swap

    // With transposition_distance = 1, only offset=1 transpositions
    let variations_trans_1 = generate_variations("abcde", 1, 1);
    assert!(variations_trans_1.contains(&"bacde".to_string())); // Adjacent swap
    assert!(!variations_trans_1.contains(&"cbade".to_string())); // Offset=2 swap not included

    // With transposition_distance = 2, both offset=1 and offset=2 transpositions
    let variations_trans_2 = generate_variations("abcde", 1, 2);
    assert!(variations_trans_2.contains(&"bacde".to_string())); // Adjacent swap
    assert!(variations_trans_2.contains(&"cbade".to_string())); // Offset=2 swap included
    assert!(variations_trans_2.contains(&"abedc".to_string())); // Offset=2 swap at different position

    // With transposition_distance = 3, offset=3 transpositions should be included
    let variations_trans_3 = generate_variations("abcde", 1, 3);
    assert!(variations_trans_3.contains(&"dbcae".to_string())); // Offset=3 swap
}

#[test]
fn raw_candidates_are_counted_before_repeats_drop() {
    assert_eq!(raw_candidates(&word("a")).len(), 93 + 1 + 188);
    assert_eq!(raw_candidates(&word("ab")).len(), 2 * 93 + 2 + 3 * 94);
    assert_eq!(raw_candidates(&word("")).len(), 94);
}

#[test]
fn a_character_outside_the_alphabet_admits_every_replacement() {
    assert_eq!(raw_candidates(&word(" ")).len(), 94 + 1 + 188);
    assert_eq!(raw_candidates(&word("\u{e9}")).len(), 94 + 1 + 188);
}

#[test]
fn one_repeat_drops_for_a_single_letter() {
    // "aa" is written down twice: inserted before and after.
    assert_eq!(generate_distance_1_variations("a").len(), 281);
}

#[test]
fn alphabet_runs_from_exclamation_mark_to_tilde() {
    let variations = generate_distance_1_variations("a");
    assert!(variations.contains(&"!".to_string()));
    assert!(variations.contains(&"~".to_string()));
    assert!(variations.contains(&"}".to_string()));
    assert!(!variations.contains(&" ".to_string()));
    assert!(!variations.contains(&"\u{7f}".to_string()));
    assert!(variations.contains(&"a~".to_string()));
    assert!(!variations.contains(&"a ".to_string()));
}

#[test]
fn empty_password_expands_to_the_alphabet() {
    let variations = generate_distance_1_variations("");
    assert_eq!(variations.len(), 94);
    for v in &variations {
        let chars: Vec<char> = v.chars().collect();
        assert_eq!(chars.len(), 1);
        assert!('!' <= chars[0] && chars[0] <= '~');
    }
}

#[test]
fn empty_password_generates_without_failing() {
    let one = generate_variations("", 1, 1);
    assert_eq!(one.len(), 95);
    assert!(one.contains(&"".to_string()));
    assert!(one.contains(&"x".to_string()));
    let two = generate_variations("", 2, 3);
    // "", 94 single characters, 94 * 94 pairs
    assert_eq!(two.len(), 1 + 94 + 94 * 94);
}

#[test]
fn distance_zero_gives_the_password_alone() {
    assert_eq!(generate_variations("abc", 0, 0), vec!["abc".to_string()]);
    assert_eq!(generate_variations("", 0, 5), vec!["".to_string()]);
}

#[test]
fn swaps_are_taken_of_the_edited_words_only() {
    // "bca" would need a swap of a swap.
    let expected: Vec<String> =
        vec!["abc".to_string(), "acb".to_string(), "bac".to_string(), "cba".to_string()];
    assert_eq!(generate_variations("abc", 0, 2), expected);
    assert_eq!(generate_variations("abc", 0, 3), expected);
    assert!(!generate_variations("abc", 0, 7).contains(&"bca".to_string()));
}

#[test]
fn gaps_stop_at_three() {
    let three = generate_variations("abcdef", 0, 3);
    let nine = generate_variations("abcdef", 0, 9);
    assert_eq!(three, nine);
    assert!(three.contains(&"dbcaef".to_string()));
    assert!(!three.contains(&"ebcdaf".to_string()));
}

#[test]
fn generate_holds_the_password_and_its_single_edits() {
    let all = generate_variations("pw", 1, 0);
    assert!(all.contains(&"pw".to_string()));
    for v in generate_distance_1_variations("pw") {
        assert!(all.contains(&v));
    }
    assert_eq!(all.len(), generate_distance_1_variations("pw").len() + 1);
}

#[test]
fn generate_twice_gives_the_same() {
    assert_eq!(generate_variations("abc", 1, 2), generate_variations("abc", 1, 2));
    assert_eq!(generate_variations("a", 2, 0), generate_variations("a", 2, 0));
}

#[test]
fn results_ascend_without_repeats() {
    assert!(strictly_ascending(&generate_variations("abc", 1, 3)));
    assert!(strictly_ascending(&generate_distance_1_variations("zz")));
    assert!(strictly_ascending(&generate_variations("b", 2, 1)));
}

#[test]
fn larger_transposition_distance_keeps_every_candidate() {
    let small = generate_variations("abcd", 1, 1);
    let large = generate_variations("abcd", 1, 2);
    for v in &small {
        assert!(large.contains(v));
    }
    assert!(large.len() > small.len());
}

#[test]
fn transpositions_come_in_order_of_position() {
    assert_eq!(
        generate_transposition_variations("abcd", 1),
        vec!["bacd".to_string(), "acbd".to_string(), "abdc".to_string()]
    );
    assert_eq!(
        generate_transposition_variations("abcd", 3),
        vec!["dbca".to_string()]
    );
    assert_eq!(generate_transposition_variations("abcd", 4), Vec::<String>::new());
    assert_eq!(generate_transposition_variations("", 1), Vec::<String>::new());
}

#[test]
fn transpositions_go_by_character_not_byte() {
    assert_eq!(
        generate_transposition_variations("h\u{e9}l", 1),
        vec!["\u{e9}hl".to_string(), "hl\u{e9}".to_string()]
    );
    assert_eq!(transposed_words(&word("\u{e9}x"), 1), vec![word("x\u{e9}")]);
}

#[test]
fn single_character_at_distance_two_is_finite() {
    let all = generate_variations("a", 2, 0);
    // "", every word of one or two characters, and the words of three
    // characters that hold an 'a'.
    assert_eq!(all.len(), 1 + 94 + 94 * 94 + (94 * 94 * 94 - 93 * 93 * 93));
}

#[test]
fn expand_all_joins_the_expansions() {
    let from = vec![word("a"), word("")];
    let raw = expand_all(&from);
    assert_eq!(raw.len(), 282 + 94);
    assert!(raw.contains(&word("ba")));
    assert!(raw.contains(&word("z")));
}

#[test]
fn swap_all_covers_each_gap_up_to_the_limit() {
    let from = vec![word("abc"), word("xy")];
    assert_eq!(swap_all(&from, 0), Vec::<Vec<char>>::new());
    let one = swap_all(&from, 1);
    assert_eq!(one.len(), 3);
    assert!(one.contains(&word("yx")));
    let two = swap_all(&from, 2);
    assert_eq!(two.len(), 4);
    assert!(two.contains(&word("cba")));
}

#[test]
fn variation_words_matches_generate() {
    let out: Vec<String> =
        variation_words(&word("ab"), 1, 1).iter().map(|w| w.iter().collect()).collect();
    assert_eq!(out, generate_variations("ab", 1, 1));
}

#[test]
fn lengths_stay_within_the_distance() {
    for v in generate_variations("abcd", 1, 3) {
        let n = v.chars().count();
        assert!(3 <= n && n <= 5);
    }
    for v in generate_variations("a", 2, 1) {
        assert!(v.chars().count() <= 3);
    }
}
