use episode_renamer::fallback::{any_needs_fallback, resolve_fallback, Fallback};
use episode_renamer::parser::parse_filename;

fn applied(show: Option<&str>, season: &str) -> Fallback {
    Fallback::Applied { show: show.map(|s| s.to_string()), season: season.to_string() }
}

#[test]
fn reads_show_and_season() {
    assert_eq!(resolve_fallback("My Show", "3"), applied(Some("my.show"), "S03"));
}

#[test]
fn passes_over_what_stands_before_the_first_digit() {
    assert_eq!(resolve_fallback("x", "Season 3"), applied(Some("x"), "S03"));
    assert_eq!(resolve_fallback("x", "S012"), applied(Some("x"), "S12"));
    assert_eq!(resolve_fallback("x", " - 007"), applied(Some("x"), "S07"));
}

#[test]
fn wide_seasons_are_not_cut() {
    assert_eq!(resolve_fallback("x", "2024"), applied(Some("x"), "S2024"));
    assert_eq!(resolve_fallback("x", "4294967295"), applied(Some("x"), "S4294967295"));
}

#[test]
fn an_empty_show_text_gives_no_show() {
    assert_eq!(resolve_fallback("", "2"), applied(None, "S02"));
}

#[test]
fn a_blank_show_text_gives_an_empty_show() {
    assert_eq!(resolve_fallback("  ", "2"), applied(Some(""), "S02"));
}

#[test]
fn a_season_without_a_number_is_unusable() {
    assert_eq!(resolve_fallback("x", ""), Fallback::Unusable);
    assert_eq!(resolve_fallback("x", "abc"), Fallback::Unusable);
    assert_eq!(resolve_fallback("x", "Season"), Fallback::Unusable);
}

#[test]
fn a_season_with_anything_behind_the_number_is_unusable() {
    assert_eq!(resolve_fallback("x", "3rd"), Fallback::Unusable);
    assert_eq!(resolve_fallback("x", "Season 12 "), Fallback::Unusable);
    assert_eq!(resolve_fallback("x", "1-2"), Fallback::Unusable);
    assert_eq!(resolve_fallback("x", "1.5"), Fallback::Unusable);
}

#[test]
fn a_season_beyond_the_range_is_unusable() {
    assert_eq!(resolve_fallback("x", "4294967296"), Fallback::Unusable);
    assert_eq!(resolve_fallback("x", "99999999999999999999"), Fallback::Unusable);
}

#[test]
fn tells_whether_any_item_needs_a_fallback() {
    let complete = parse_filename("/v", "Show S01E02.mkv", true).unwrap();
    let without_season = parse_filename("/v", "Show.E01.mkv", true).unwrap();
    assert!(!any_needs_fallback(&vec![]));
    assert!(!any_needs_fallback(&vec![complete.clone()]));
    assert!(any_needs_fallback(&vec![complete.clone(), without_season.clone()]));
    assert!(any_needs_fallback(&vec![without_season, complete]));
}
