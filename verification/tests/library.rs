use t_rex::matcher::lower_chars;
use t_rex::parser::{parse, ParsingError};
use t_rex::text::decimal_chars;
use t_rex::types::{Character, Regex};
use t_rex::utils::{is_special, Queue};
use t_rex::vm::parser::{checked_parse, parse as vm_parse};
use t_rex::matcher::is_boundary;
use t_rex::vm::matcher::MatchState;
use t_rex::vm::types::Input;
use t_rex::vm::types::Regex as Program;

fn error_of(regex: &str) -> String {
    match Regex::new(regex, false) {
        Ok(_) => panic!("{} should not parse", regex),
        Err(e) => e.to_string(),
    }
}

#[test]
fn error_end_of_input() {
    assert_eq!(error_of(r"a\"), "unexpected end of input");
    assert!(matches!(parse("[ab"), Err(ParsingError::EndOfInput)));
}

#[test]
fn error_unexpected_character() {
    assert_eq!(error_of("*a"), "unexpected character *");
    assert_eq!(error_of("(?x)"), "unexpected character ?");
}

#[test]
fn error_missing_paren() {
    assert_eq!(error_of("(ab"), "missing )");
    assert_eq!(error_of("a{2,3"), "missing }");
}

#[test]
fn error_invalid_range() {
    assert_eq!(error_of("[z-a]"), "z-a is not a valid range");
}

#[test]
fn error_invalid_repetitions() {
    assert_eq!(error_of("a{3,2}"), "invalid repetitions counts");
    assert_eq!(error_of("a{x}"), "invalid repetitions counts");
    assert_eq!(error_of("a{1,100001}"), "invalid repetitions counts");
}

#[test]
fn error_not_a_number() {
    assert_eq!(error_of(r"\xZZ"), "ZZ is not a number");
    assert_eq!(error_of(r"\uD800"), "D800 is not a number");
}

#[test]
fn error_bad_escape() {
    assert_eq!(error_of(r"\q"), "unsupported escape character \\q");
}

#[test]
fn checked_new_refuses_patterns_without_answer() {
    assert!(Regex::checked_new(r"[\w-z]", false).is_none());
    assert!(Regex::checked_new("a{99999999999}", false).is_none());
    assert!(Regex::checked_new("a", false).is_some());
}

#[test]
fn hex_and_unicode_escapes() {
    let rx = Regex::new(r"\x41\u0042", false).unwrap();
    assert!(rx.is_match("xxABxx"));
    assert!(!rx.is_match("AC"));
    let lower = Regex::new(r"\x6a\u006B", false).unwrap();
    assert!(lower.is_match("jk"));
    let signed = Regex::new(r"\x+4", false).unwrap();
    assert!(signed.is_match("\u{4}"));
}

#[test]
fn classes_use_unicode_properties() {
    let space = Regex::new(r"a\sb", false).unwrap();
    assert!(space.is_match("a\u{2003}b"));
    assert!(!space.is_match("a_b"));
    let word = Regex::new(r"^\w+$", false).unwrap();
    assert!(word.is_match("été_9"));
    assert!(!word.is_match("a-b"));
    let not_digit = Regex::new(r"^\D$", false).unwrap();
    assert!(not_digit.is_match("x"));
    assert!(!not_digit.is_match("7"));
}

#[test]
fn white_space_class_agrees_with_std() {
    for code in 0u32..=0x10FFFF {
        if let Some(c) = char::from_u32(code) {
            assert_eq!(Character::Space.is_match(c), c.is_whitespace(), "{:?}", c);
        }
    }
}

#[test]
fn brackets_and_negation() {
    let rx = Regex::new("^[^a-c]x$", false).unwrap();
    assert!(rx.is_match("dx"));
    assert!(!rx.is_match("bx"));
    let dashes = Regex::new("^[-a]+$", false).unwrap();
    assert!(dashes.is_match("-a-"));
}

#[test]
fn ignore_case_lowers_pattern_and_input() {
    let rx = Regex::new("HeLLo", true).unwrap();
    assert!(rx.is_match("say hello"));
    assert!(rx.is_match("SAY HELLO"));
    let exact = Regex::new("HeLLo", false).unwrap();
    assert!(!exact.is_match("hello"));
    assert_eq!(lower_chars(&vec!['A', 'z', 'É', '1']), vec!['a', 'z', 'É', '1']);
}

#[test]
fn ignore_case_keeps_escapes() {
    // `\S` stays a class and is not lowered to `\s`
    let rx = Regex::new(r"^\S$", true).unwrap();
    assert!(rx.is_match("x"));
    assert!(!rx.is_match(" "));
}

#[test]
fn reaches_final_without_reading() {
    let rx = Regex::new("a*", false).unwrap();
    assert!(rx.reaches_final());
    let rx = Regex::new("a", false).unwrap();
    assert!(!rx.reaches_final());
}

#[test]
fn loops_have_states_of_their_own() {
    let rx = Regex::new("^(a*b|c)$", false).unwrap();
    assert!(!rx.is_match("ac"));
    assert!(rx.is_match("aab"));
    assert!(rx.is_match("b"));
    assert!(rx.is_match("c"));
    let rx = Regex::new("^(a{2,})?$", false).unwrap();
    assert!(!rx.is_match("a"));
    assert!(rx.is_match(""));
    assert!(rx.is_match("aa"));
    assert!(rx.is_match("aaa"));
    let rx = Regex::new("^(a*b|c){2}$", false).unwrap();
    assert!(rx.is_match("abc"));
    assert!(!rx.is_match("acc"));
}

#[test]
fn parts_in_the_language_are_found() {
    // (a|bc)*d holds "abcd" and "d"; each is found wherever it stands
    let rx = Regex::new("(a|bc)*d", false).unwrap();
    assert!(rx.is_match("abcd"));
    assert!(rx.is_match("xxbcbcdyy"));
    assert!(rx.is_match("d"));
    assert!(!rx.is_match("abc"));
    // a{2,3} followed by b: "aab" and "aaab" lie in the language
    let rx = Regex::new("a{2,3}b", false).unwrap();
    assert!(rx.is_match("zaabz"));
    assert!(rx.is_match("aaaab"));
    assert!(!rx.is_match("ab"));
    // anchors and boundaries are read at their place in the whole input
    let rx = Regex::new(r"\bcat\b", false).unwrap();
    assert!(rx.is_match("a cat sat"));
    assert!(!rx.is_match("concatenate"));
}

#[test]
fn both_engines_agree_on_word_boundaries() {
    let automaton = Regex::new(r"\bcat\b", false).unwrap();
    let machine = vm_parse(r"\bcat\b").unwrap();
    for input in ["a cat sat", "concatenate", "cat", " cat", "cats", "tomcat "] {
        assert_eq!(automaton.is_match(input), machine.is_match(input), "{}", input);
    }
    assert!(machine.is_match("a cat sat"));
    assert!(!machine.is_match("concatenate"));
}

#[test]
fn machine_and_automaton_boundaries_agree_at_each_position() {
    for text in ["a cat sat", " x ", "", "ab  c"] {
        let input = Input::new(text);
        let chars: Vec<char> = text.chars().collect();
        for i in 0..=chars.len() + 1 {
            let st = MatchState::new(i, 0);
            assert_eq!(st.is_boundary(&input), is_boundary(&chars, i), "{:?} {}", text, i);
        }
    }
}

#[test]
fn match_survives_text_before_and_after() {
    let rx = Regex::new("ab+", false).unwrap();
    assert!(rx.is_match("abb"));
    assert!(rx.is_match("zzabb"));
    assert!(rx.is_match("zzabbyy"));
    let anchored = Regex::new("^ab", false).unwrap();
    assert!(anchored.is_match("abb"));
    assert!(!anchored.is_match("zzabb"));
}

#[test]
fn vm_repetition_reads_between_n_and_m_copies() {
    let rx = vm_parse("^(ab){2,3}$").unwrap();
    assert!(!rx.is_match("ab"));
    assert!(rx.is_match("abab"));
    assert!(rx.is_match("ababab"));
    assert!(!rx.is_match("abababab"));
    let plus = vm_parse("^(ab){2,}$").unwrap();
    assert!(!plus.is_match("ab"));
    assert!(plus.is_match("abababab"));
    let star = vm_parse("^(a|bc)*d$").unwrap();
    assert!(star.is_match("d"));
    assert!(star.is_match("abcad"));
    assert!(!star.is_match("abd"));
}

#[test]
fn vm_groups_end_in_order_within_the_match() {
    let mut rx = vm_parse("(a+)(b*)c").unwrap();
    assert_eq!(
        rx.captures("xaabbcz"),
        vec!["aabbc".to_string(), "aa".to_string(), "bb".to_string()]
    );
    assert_eq!(rx.captures("xac"), vec!["ac".to_string(), "a".to_string(), String::new()]);
}

#[test]
fn longer_input_keeps_a_match() {
    let rx = Regex::new("ab+", false).unwrap();
    assert!(rx.is_match("xab"));
    assert!(rx.is_match("xabyyy"));
    let anchored = Regex::new("ab$", false).unwrap();
    assert!(anchored.is_match("xab"));
    assert!(!anchored.is_match("xabyyy"));
}

#[test]
fn zero_repetitions_skip_the_atom() {
    let rx = Regex::new("^a{0}b$", false).unwrap();
    assert!(rx.is_match("b"));
    assert!(!rx.is_match("ab"));
    let rx = Regex::new("^xa{0,0}y$", false).unwrap();
    assert!(rx.is_match("xy"));
    assert!(!rx.is_match("xay"));
}

#[test]
fn empty_regex_matches_everything() {
    let rx = Regex::new("", false).unwrap();
    assert!(rx.is_match(""));
    assert!(rx.is_match("anything at all"));
}

#[test]
fn case_blind_matching_law_example() {
    let rx = Regex::new("ab", true).unwrap();
    assert_eq!(rx.is_match("xAbx"), rx.is_match("xaBx"));
}

#[test]
fn graph_of_single_letter() {
    let rx = Regex::new("a", false).unwrap();
    assert_eq!(rx.nodes(), vec![0, 1]);
    assert_eq!(rx.graph(), "digraph G {\n  rankdir=LR;\n  0 -> 1 [label = \"a\"]\n}");
}

#[test]
fn graph_escapes_backslashes_and_names_epsilon() {
    let rx = Regex::new(r"\d|x*", false).unwrap();
    let g = rx.graph();
    assert!(g.contains("\\\\d"));
    assert!(g.contains("\u{03B5}"));
    assert!(g.starts_with("digraph G {\n  rankdir=LR;\n"));
    assert!(g.ends_with("\n}"));
}

#[test]
fn graph_of_empty_regex() {
    let rx = Regex::new("", false).unwrap();
    assert_eq!(rx.graph(), "digraph G {\n  rankdir=LR;\n  0 -> 1 [label = \"\u{03B5}\"]\n}");
}

#[test]
fn decimal_numbers() {
    assert_eq!(decimal_chars(0), vec!['0']);
    assert_eq!(decimal_chars(907), vec!['9', '0', '7']);
}

#[test]
fn special_characters() {
    assert!(is_special('*'));
    assert!(is_special('\\'));
    assert!(!is_special('a'));
}

#[test]
fn queue_hands_out_each_state_once() {
    let mut q = Queue::new();
    assert!(q.push(3));
    assert!(q.push(5));
    assert!(!q.push(3));
    assert_eq!(q.pop(), Some(5));
    assert_eq!(q.pop(), Some(3));
    assert_eq!(q.pop(), None);
    assert!(!q.push(5));
}

#[test]
fn vm_parse_failures() {
    assert!(vm_parse("(ab").is_err());
    assert!(vm_parse("[ab").is_err());
    assert!(vm_parse(r"a\").is_err());
    assert!(vm_parse("(?x)").is_err());
    assert!(vm_parse("a{3,2}").is_err());
    assert!(checked_parse("*").is_none());
    assert!(checked_parse("[a-b-c]").is_none());
    assert!(checked_parse("a").is_some());
}

#[test]
fn vm_outside_parenthesis_is_literal() {
    let rx = vm_parse("a)").unwrap();
    assert!(rx.is_match("xa)"));
    assert!(!rx.is_match("a"));
}

#[test]
fn vm_optional_copies_jump_just_past_the_repetitions() {
    let rx = vm_parse("a{1,2}b").unwrap();
    assert_eq!(
        rx.show_code(),
        "0  match a\n1  split 2 (else backtrack to 3)\n2  match a\n3  match b\n"
    );
    assert!(!rx.is_match("a"));
    assert!(!rx.is_match("ax"));
    assert!(rx.is_match("ab"));
    assert!(rx.is_match("aab"));
}

#[test]
fn vm_bounded_repetition_from_zero() {
    let rx = vm_parse("^a{0,2}$").unwrap();
    assert!(rx.is_match(""));
    assert!(rx.is_match("a"));
    assert!(rx.is_match("aa"));
    assert!(!rx.is_match("aaa"));
    let rx = vm_parse("xa{0,2}y").unwrap();
    assert!(rx.is_match("xy"));
    assert!(!rx.is_match("xaaay"));
}

#[test]
fn vm_restarts_up_to_the_end_of_the_input() {
    assert!(vm_parse("a$").unwrap().is_match("aa"));
    assert!(vm_parse("$").unwrap().is_match("a"));
    assert!(vm_parse("b$").unwrap().is_match("ab"));
    assert!(!vm_parse("c$").unwrap().is_match("ab"));
}

#[test]
fn vm_empty_program_matches() {
    let mut rx = vm_parse("").unwrap();
    assert!(rx.instructions.is_empty());
    assert!(rx.is_match("abc"));
    assert_eq!(rx.captures("abc"), vec![String::new()]);
}

#[test]
fn vm_fuel_bounds_the_run() {
    let rx = vm_parse("a*b").unwrap();
    assert_eq!(rx.is_match_within("aab", 1000), Some(true));
    assert_eq!(rx.is_match_within("aab", 2), None);
    // a repeated group that can match nothing loops without end
    let looping = vm_parse("(a*)*b").unwrap();
    assert_eq!(looping.is_match_within("ab", 10000), None);
}

#[test]
fn vm_hex_escape_and_classes() {
    let rx = vm_parse(r"\x41\d\W").unwrap();
    assert!(rx.is_match("zA1-"));
    assert!(!rx.is_match("A1b"));
    let set = vm_parse("[^x-z]").unwrap();
    assert!(set.is_match("xa"));
    assert!(!set.is_match("xyz"));
}

#[test]
fn vm_listing() {
    let rx = vm_parse("a|b").unwrap();
    assert_eq!(
        rx.show_code(),
        "0  split 3 (else backtrack to 3)\n1  match a\n2  skip 2 (jump to 4)\n3  match b\n"
    );
    let star = vm_parse("a*").unwrap();
    assert_eq!(
        star.show_code(),
        "0  split 3 (else backtrack to 3)\n1  match a\n2  repeat 2 (else jump to 0)\n"
    );
}

#[test]
fn vm_instruction_texts() {
    let rx = vm_parse(r"^[^a-c.]\1(?R)$\b").unwrap();
    let texts: Vec<String> = rx.instructions.iter().map(|i| i.to_string()).collect();
    assert_eq!(
        texts,
        vec!["match ^", "match [^a-c\\.]", "starts with \\1", "recurse", "match $", "match \\b"]
    );
}

#[test]
fn vm_input_slices() {
    let input = Input::new("héllo");
    assert_eq!(input.len(), 5);
    assert_eq!(input.get(1), Some('é'));
    assert_eq!(input.get(5), None);
    assert_eq!(input.string_slice(1, 4), "éll");
    assert_eq!(input.char_slice(3, 5), vec!['l', 'o']);
    assert!(input.contains_at(2, &['l', 'l']));
    assert!(!input.contains_at(4, &['o', 'x']));
    assert_eq!(input.to_string(), "héllo");
}

#[test]
fn vm_from_str_messages() {
    assert!(Program::from_str("a|b").is_ok());
    assert_eq!(Program::from_str("(a").unwrap_err(), "failed to parse");
}

#[test]
fn vm_captures_only_with_a_match() {
    let mut rx = vm_parse("(b+)c").unwrap();
    assert!(rx.is_match("abbc"));
    assert_eq!(rx.captures("abbc"), vec!["bbc".to_string(), "bb".to_string()]);
    assert!(!rx.is_match("abb"));
    assert!(rx.captures("abb").is_empty());
}
