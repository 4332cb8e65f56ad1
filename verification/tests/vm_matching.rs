use t_rex::vm::parser::parse;

fn matching(regex: &str, input: &str, expected_status: bool, expected_matches: &[&str]) {
    let mut rx = parse(regex).unwrap();
    println!("Using regex: {}", regex);
    println!("Matching:    {}\n", input);
    println!("{}", rx.show_code());
    assert_eq!(rx.is_match(input), expected_status);
    assert_eq!(rx.captures(input), expected_matches);
}

#[test]
fn matching_single_character() {
    matching(r"a", "a", true, &["a"]);
}

#[test]
fn matching_false_match_for_single_character() {
    matching(r"a", "X", false, &[]);
}

#[test]
fn matching_no_match_for_single_char_in_a_string() {
    matching(r"a", "XXXXXX", false, &[]);
}

#[test]
fn matching_input_is_longer_than_pattern() {
    matching(r"a", "abc", true, &["a"]);
}

#[test]
fn matching_repeated_character_with_open_bounds() {
    matching(r"a+", "aaa", true, &["aaa"]);
}

#[test]
fn matching_repeated_without_upper_bound() {
    matching(r"a{5,}.", "aaaXaaaaaY", true, &["aaaaaY"]);
}

#[test]
fn matching_false_match_for_repeated_character_with_open_bounds() {
    matching(r"a+", "xxx", false, &[]);
}

#[test]
fn matching_character_repeated_3_times() {
    matching(r"a{3}b", "aaaaaaaabaaaa", true, &["aaab"]);
}

#[test]
fn matching_repeated_character_with_fixed_bounds() {
    matching(r"a{3,5}", "aaaaaaaaaaaa", true, &["aaaaa"]);
}

#[test]
fn matching_false_match_for_repeated_character_with_fixed_bounds() {
    matching(r"a{3,5}", "aa", false, &[]);
}

#[test]
fn matching_repeated_character() {
    matching(r"a+b", "aaab", true, &["aaab"]);
}

#[test]
fn matching_repeated_character_inside_bounds() {
    matching(r"ab*c", "abbbbbc", true, &["abbbbbc"]);
}

#[test]
fn matching_word_boundary() {
    matching(r"a\b", "a ", true, &["a"]);
}

#[test]
fn matching_non_word_boundary() {
    matching(r"a\Bc", "ac", true, &["ac"]);
}

#[test]
fn matching_word_boundary_only() {
    matching(r"\b", "abc", true, &[""]);
}

#[test]
fn matching_alteration() {
    matching(r"a|b", "b", true, &["b"]);
}

#[test]
fn matching_false_match_for_alteration() {
    matching(r"a|b", "X", false, &[]);
}

#[test]
fn matching_empty_string() {
    matching(r"^$", "", true, &[""]);
}

#[test]
fn matching_alternate_full_matches() {
    matching(r"^abc$|^def$", "def", true, &["def"]);
}

#[test]
fn matching_empty_string_only_end() {
    matching(r"$", "", true, &[""]);
}

#[test]
fn matching_empty_string_only_start() {
    matching(r"^", "", true, &[""]);
}

#[test]
fn matching_any_whole_string_empty() {
    matching(r"^.*$", "", true, &[""]);
}

#[test]
fn matching_negative_match_set() {
    matching(r"[a-z]+", "&*&**&*&$#$$", false, &[]);
}

#[test]
fn matching_match_negated_set() {
    matching(r"[^a-z]{3,10}", "&a*&**&*&aaa$#$$", true, &["*&**&*&"]);
}

#[test]
fn matching_any_whole_string_non_empty() {
    matching(r"^.*$", "hello, world!", true, &["hello, world!"]);
}

#[test]
fn matching_alteration_longer() {
    matching(r"(a+|(a.x)|(ab.))d", "abcd", true, &["abcd", "abc", "abc"]);
}

#[test]
fn matching_matching_groups() {
    matching(r"((a)(b)(x)|(a)(b))c", "abc", true, &["abc", "ab", "a", "b"]);
}

#[test]
fn matching_more_matching_groups_on_left() {
    matching(r"(a)(b)cx|(a)bc", "abc", true, &["abc", "a"]);
}

#[test]
fn matching_single_character_group() {
    matching(r"(a)", "abc", true, &["a", "a"]);
}

#[test]
fn matching_more_matching_groups_on_right() {
    matching(r"(a)bcx|(a)(b)c", "abc", true, &["abc", "a", "b"]);
}

#[test]
fn matching_find_subpattern() {
    matching(r"a+", "xxx aaa xxx", true, &["aaa"]);
}

#[test]
fn matching_needs_to_backtrack() {
    matching(r"a+b", "aaax aab", true, &["aab"]);
}

#[test]
fn matching_false_match_for_either_with_repeated_char() {
    matching(r"(a+)|(b+)", "xxx", false, &[]);
}

#[test]
fn matching_match_groups_recursively() {
    matching(r"(\w+) (\w+) \1", "The Latin phrase 'idem per idem' means 'the same for the same'.", true, &["idem per idem", "idem", "per"]);
}

#[test]
fn matching_match_groups_recursively_for_nonexistent_group() {
    matching(r"a\5", "aaaaaa", true, &["a"]);
}

#[test]
fn matching_catastrophic_backtracking_example() {
    matching(r"(x+x+)+y", "xxxxz xxxxxy", true, &["xxxxxy", "xxxxx"]);
}

#[test]
fn matching_trivial_recursive_pattern() {
    matching(r"a(?R)?", "aaa", true, &["aaa"]);
}

#[test]
fn matching_inner_recursive_pattern() {
    matching(r"\((?R)?\)", "((()))", true, &["((()))"]);
}

#[test]
fn matching_recursive_pattern() {
    matching(r"\w{3}\d{3}(?R)?", "aaa111bbb222", true, &["aaa111bbb222"]);
}

#[test]
fn matching_palindrome() {
    matching(r"(\w)((?R)|\w?)\1", "okonoko", true, &["okonoko", "o", "konok"]);
}
