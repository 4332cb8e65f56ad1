use t_rex::parser::parse;

fn no_errors(input: &str) {
    let res = parse(input);
    println!("{} => {:?}", input, res);
    assert!(res.is_ok());
}

#[test]
fn no_errors_single_character() {
    no_errors(r"a");
}

#[test]
fn no_errors_many_characters() {
    no_errors(r"abc");
}

#[test]
fn no_errors_more_than_one_character() {
    no_errors(r"a+");
}

#[test]
fn no_errors_more_than_one_groups() {
    no_errors(r"(\n)+");
}

#[test]
fn no_errors_repeat_non_space() {
    no_errors(r"\S{7,9}");
}

#[test]
fn no_errors_repeat_digit() {
    no_errors(r"\d{7,}");
}

#[test]
fn no_errors_repeat_empty_group() {
    no_errors(r"(){42}");
}

#[test]
fn no_errors_zero_or_one_set_with_bracket() {
    no_errors(r"[]]?");
}

#[test]
fn no_errors_minus_minus_set() {
    no_errors(r"[--]");
}

#[test]
fn no_errors_minus_range_set() {
    no_errors(r"[--4]");
}

#[test]
fn no_errors_range_with_minuses_on_both_sides() {
    no_errors(r"[-a-z-]");
}

#[test]
fn no_errors_set_of_strange_chars() {
    no_errors(r"[]-}]");
}

#[test]
fn no_errors_set_of_non_brackets_and_bracket() {
    no_errors(r"[^][]]");
}

#[test]
fn no_errors_either_empty_set() {
    no_errors(r"()|()");
}

#[test]
fn no_errors_either_a_or_b() {
    no_errors(r"a|b");
}

#[test]
fn no_errors_group_of_either_a_or_b() {
    no_errors(r"(a|b)");
}
