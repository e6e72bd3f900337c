use episode_renamer::normalize::clean_segment;

#[test]
fn trims_whitespace_at_both_ends() {
    assert_eq!(clean_segment("  show  "), "show");
    assert_eq!(clean_segment("\tshow\n"), "show");
    assert_eq!(clean_segment("\u{a0}show\u{3000}"), "show");
}

#[test]
fn replaces_every_space_with_a_dot() {
    assert_eq!(clean_segment("some show name"), "some.show.name");
}

#[test]
fn keeps_other_whitespace_inside() {
    assert_eq!(clean_segment("a\tb"), "a\tb");
}

#[test]
fn collapses_runs_of_dots() {
    assert_eq!(clean_segment("a....b"), "a.b");
    assert_eq!(clean_segment("a . b"), "a.b");
    assert_eq!(clean_segment("a  b"), "a.b");
}

#[test]
fn strips_dots_at_both_ends() {
    assert_eq!(clean_segment(".show."), "show");
    assert_eq!(clean_segment("...show.name..."), "show.name");
    assert_eq!(clean_segment(" . show . "), "show");
}

#[test]
fn keeps_a_lone_dot() {
    assert_eq!(clean_segment("."), ".");
    assert_eq!(clean_segment("..."), ".");
    assert_eq!(clean_segment(" . . "), ".");
}

#[test]
fn empty_and_blank_give_empty() {
    assert_eq!(clean_segment(""), "");
    assert_eq!(clean_segment("   "), "");
}

#[test]
fn lower_cases_the_result() {
    assert_eq!(clean_segment("Some SHOW"), "some.show");
    assert_eq!(clean_segment("ABCXYZ[]^`az{"), "abcxyz[]^`az{");
}

#[test]
fn lower_cases_letters_outside_ascii() {
    assert_eq!(clean_segment("ÉTÉ À PARIS"), "été.à.paris");
    assert_eq!(clean_segment("ЁЖИК"), "ёжик");
}

#[test]
fn lower_cases_where_the_lower_case_is_not_one_letter_of_the_same_kind() {
    // the dotted capital I lower-cases to two characters, the Kelvin sign to an ASCII letter
    assert_eq!(clean_segment("\u{130}"), "i\u{307}");
    assert_eq!(clean_segment("\u{212a}"), "k");
}

#[test]
fn a_capital_sigma_at_the_end_of_a_word_becomes_the_final_sigma() {
    assert_eq!(clean_segment("ΟΔΟΣ"), "οδος");
    assert_eq!(clean_segment("ΣΟΦΙΑ"), "σοφια");
}

#[test]
fn result_is_no_longer_than_the_input_where_lower_casing_does_not_lengthen() {
    let inputs = ["", " ", ".", "a b", "  A..B  ", "ÉTÉ", "\u{212a}x", " . a . b . "];
    for input in inputs {
        let cleaned = clean_segment(input);
        assert!(cleaned.chars().count() <= input.chars().count());
    }
}

#[test]
fn result_is_longer_than_the_input_where_lower_casing_lengthens() {
    assert_eq!(clean_segment("\u{130}").chars().count(), 2);
}

#[test]
fn normalizing_twice_changes_nothing_on_settled_results() {
    let inputs = ["", " ", ".", "a b", "  A..B  ", "Some Show - ", "ÉTÉ", " . a . b . ", "x.\ty"];
    for input in inputs {
        let once = clean_segment(input);
        assert_eq!(clean_segment(&once), once);
    }
}

#[test]
fn a_tab_behind_a_leading_dot_is_trimmed_by_a_second_pass_only() {
    let once = clean_segment(".\ta");
    assert_eq!(once, "\ta");
    assert_eq!(clean_segment(&once), "a");
}
