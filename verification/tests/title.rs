use episode_renamer::title::capitalize_title_case;

#[test]
fn capitalizes_every_segment() {
    assert_eq!(capitalize_title_case("some.show"), "Some.Show");
    assert_eq!(capitalize_title_case("show"), "Show");
}

#[test]
fn first_segment_is_capitalized_even_if_a_stopword() {
    assert_eq!(capitalize_title_case("the.great.war"), "The.Great.War");
    assert_eq!(capitalize_title_case("of.mice.and.men"), "Of.Mice.and.Men");
}

#[test]
fn stopwords_behind_the_first_segment_stay_lower_case() {
    assert_eq!(capitalize_title_case("war.of.the.worlds"), "War.of.the.Worlds");
    assert_eq!(capitalize_title_case("law.and.order"), "Law.and.Order");
}

#[test]
fn only_the_exact_lower_case_words_are_stopwords() {
    assert_eq!(capitalize_title_case("a.The.b"), "A.The.B");
    assert_eq!(capitalize_title_case("a.then.b"), "A.Then.B");
}

#[test]
fn empty_segments_are_dropped() {
    assert_eq!(capitalize_title_case(".a..b."), "A.B");
    assert_eq!(capitalize_title_case(""), "");
    assert_eq!(capitalize_title_case("."), "");
    assert_eq!(capitalize_title_case("..."), "");
}

#[test]
fn a_stopword_behind_an_empty_first_segment_stays_lower_case() {
    assert_eq!(capitalize_title_case(".the.x"), "the.X");
}

#[test]
fn only_the_first_character_changes() {
    assert_eq!(capitalize_title_case("sHOW.nAME"), "SHOW.NAME");
    assert_eq!(capitalize_title_case("1show.-x"), "1show.-x");
}

#[test]
fn capitalizes_letters_outside_ascii() {
    assert_eq!(capitalize_title_case("élite.été"), "Élite.Été");
}

#[test]
fn capitalizes_where_the_upper_case_is_not_one_letter_of_the_same_kind() {
    // sharp s upper-cases to two letters, long s and dotless i to ASCII letters
    assert_eq!(capitalize_title_case("ßeta"), "SSeta");
    assert_eq!(capitalize_title_case("\u{17f}1e2"), "S1e2");
    assert_eq!(capitalize_title_case("\u{131}x.\u{fb01}n"), "Ix.FIn");
}
