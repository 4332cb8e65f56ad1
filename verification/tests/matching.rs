use t_rex::types::Regex;

fn matches(regex: &str, example: &str, expected: bool) {
    let regex = Regex::new(regex, false).unwrap();
    assert!(regex.graph_printable());
    println!("{}", regex.graph());
    assert_eq!(regex.is_match(example), expected);
}

#[test]
fn matches_empty_regex_for_empty_input() {
    matches("", "", true);
}

#[test]
fn matches_empty_regex_for_non_empty_input() {
    matches("", "abcdfef", true);
}

#[test]
fn matches_single_letter() {
    matches("a", "a", true);
}

#[test]
fn matches_negative_match_for_single_letter() {
    matches("a", "xxx", false);
}

#[test]
fn matches_several_letters() {
    matches("abc", "abc", true);
}

#[test]
fn matches_negative_match_for_several_letters() {
    matches("abc", "axx", false);
}

#[test]
fn matches_repeated_letters() {
    matches("a{5}", "aaaaaaa", true);
}

#[test]
fn matches_negative_match_for_repeated_letters() {
    matches("a{5}", "aabcde", false);
}

#[test]
fn matches_negative_match_for_repeated_letters_wrong_count() {
    matches("a{5}", "aaa", false);
}

#[test]
fn matches_repeated_letters_with_min_count_input_is_min() {
    matches("a{3,}", "aaa", true);
}

#[test]
fn matches_repeated_letters_with_min_count_input_is_more() {
    matches("a{3,}", "aaaa", true);
}

#[test]
fn matches_negative_match_for_repeated_letters_with_min_count() {
    matches("a{3,}", "aa", false);
}

#[test]
fn matches_bounded_repeat_with_min_count() {
    matches("a{3,5}", "aaa", true);
}

#[test]
fn matches_bounded_repeat_with_mid_count() {
    matches("a{3,5}", "aaaa", true);
}

#[test]
fn matches_bounded_repeat_with_max_count() {
    matches("a{3,5}", "aaaaa", true);
}

#[test]
fn matches_negative_match_for_bounded_repeat_with_too_small_count() {
    matches("a{3,5}", "aa", false);
}

#[test]
fn matches_negative_match_for_bounded_repeat_with_wrong_chars() {
    matches("a{3,5}", "aabc", false);
}

#[test]
fn matches_at_least_one_letter_for_one_letter() {
    matches("a+", "a", true);
}

#[test]
fn matches_at_least_one_letter_for_many_letters() {
    matches("a+", "aaa", true);
}

#[test]
fn matches_negative_match_at_least_one_letter() {
    matches("a+", "bdesdf", false);
}

#[test]
fn matches_infinite_loop_of_letters() {
    matches("a*", "aaaaaa", true);
}

#[test]
fn matches_infinite_loop_of_letters_for_empty() {
    matches("a*", "", true);
}

#[test]
fn matches_repeated_infinite_loop_of_letters_for_empty() {
    matches("a*a*a*a*", "", true);
}

#[test]
fn matches_trivial_alternative_left_branch() {
    matches("a|b", "a", true);
}

#[test]
fn matches_trivial_alternative_right_branch() {
    matches("a|b", "b", true);
}

#[test]
fn matches_longer_alternative() {
    matches("abc|def", "def", true);
}

#[test]
fn matches_negative_match_for_alternative() {
    matches("a|b", "x", false);
}

#[test]
fn matches_bounded_string_with_guards() {
    matches("^abc$", "abc", true);
}

#[test]
fn matches_empty_string_with_guards() {
    matches("^$", "", true);
}

#[test]
fn matches_alternate_full_matches() {
    matches(r"^abc$|^def$", "def", true);
}

#[test]
fn matches_word_boundary() {
    matches(r"a\b", "a ", true);
}

#[test]
fn matches_non_word_boundary() {
    matches(r"a\Bc", "ac", true);
}

#[test]
fn matches_word_boundary_only() {
    matches(r"\b", "abc", true);
}
