use episode_renamer::parser::{parse_filename, ParseError, ParsedInfo};
use episode_renamer::paths::FilePath;

fn parse(name: &str) -> ParsedInfo {
    parse_filename("/videos", name, true).unwrap()
}

fn text(s: &str) -> Option<String> {
    Some(s.to_string())
}

#[test]
fn a_directory_is_not_a_file() {
    assert_eq!(parse_filename("/videos", "Season 1", false), Err(ParseError::NotAFile));
    assert_eq!(parse_filename("/videos", "", false), Err(ParseError::NotAFile));
}

#[test]
fn an_entry_without_a_name_has_no_file_name() {
    assert_eq!(parse_filename("/videos", "", true), Err(ParseError::NoFileName));
}

#[test]
fn keeps_path_name_and_extension() {
    let info = parse("Show.S01E01.MKV");
    assert_eq!(info.original_path, FilePath::new("/videos", "Show.S01E01.MKV"));
    assert_eq!(info.original_filename, "Show.S01E01.MKV");
    assert_eq!(info.extension, "MKV");
}

#[test]
fn reads_a_full_name() {
    let info = parse("show.name.s01e02.720p.mkv");
    assert_eq!(
        info,
        ParsedInfo {
            original_path: FilePath::new("/videos", "show.name.s01e02.720p.mkv"),
            original_filename: "show.name.s01e02.720p.mkv".to_string(),
            extension: "mkv".to_string(),
            show_name_part: text("show.name"),
            season_prefix_part: text("S01"),
            episode_number_part: text("E02"),
            remainder_part: text("720p"),
            needs_fallback: false,
        }
    );
}

#[test]
fn canonicalizes_the_numbers() {
    let info = parse("Show S1E2.mkv");
    assert_eq!(info.season_prefix_part, text("S01"));
    assert_eq!(info.episode_number_part, text("E02"));
    let info = parse("Show S123E7.mkv");
    assert_eq!(info.season_prefix_part, text("S123"));
    assert_eq!(info.episode_number_part, text("E07"));
    let info = parse("Show s002e014.mkv");
    assert_eq!(info.season_prefix_part, text("S02"));
    assert_eq!(info.episode_number_part, text("E14"));
    let info = parse("Show S000E000.mkv");
    assert_eq!(info.season_prefix_part, text("S00"));
    assert_eq!(info.episode_number_part, text("E00"));
}

#[test]
fn a_name_that_starts_with_the_marker_needs_a_show() {
    let info = parse("S01E02.mkv");
    assert_eq!(info.show_name_part, None);
    assert_eq!(info.season_prefix_part, text("S01"));
    assert_eq!(info.episode_number_part, text("E02"));
    assert_eq!(info.remainder_part, None);
    assert!(info.needs_fallback);
}

#[test]
fn a_show_of_dots_and_spaces_only_is_missing() {
    let info = parse(" . S01E02.mkv");
    assert_eq!(info.show_name_part, text("."));
    let info = parse("   S01E02.mkv");
    assert_eq!(info.show_name_part, None);
    assert!(info.needs_fallback);
}

#[test]
fn the_first_marker_wins() {
    let info = parse("Show.S01E02.S03E04.mkv");
    assert_eq!(info.show_name_part, text("show"));
    assert_eq!(info.season_prefix_part, text("S01"));
    assert_eq!(info.episode_number_part, text("E02"));
    assert_eq!(info.remainder_part, text("s03e04"));
}

#[test]
fn an_episode_marker_alone_needs_a_season() {
    let info = parse("Show.E01.extra.mkv");
    assert_eq!(info.show_name_part, text("show"));
    assert_eq!(info.season_prefix_part, None);
    assert_eq!(info.episode_number_part, text("E01"));
    assert_eq!(info.remainder_part, text("extra"));
    assert!(info.needs_fallback);
}

#[test]
fn an_episode_marker_alone_may_come_first() {
    let info = parse("e7.mkv");
    assert_eq!(info.show_name_part, None);
    assert_eq!(info.episode_number_part, text("E07"));
    assert!(info.needs_fallback);
}

#[test]
fn a_season_of_four_digits_is_no_marker() {
    let info = parse("Show.S2024E01.mkv");
    assert_eq!(info.show_name_part, text("show.s2024"));
    assert_eq!(info.season_prefix_part, None);
    assert_eq!(info.episode_number_part, text("E01"));
    assert!(info.needs_fallback);
}

#[test]
fn a_fourth_episode_digit_goes_to_the_remainder() {
    let info = parse("Show S01E1234.mkv");
    assert_eq!(info.episode_number_part, text("E123"));
    assert_eq!(info.remainder_part, text("4"));
}

#[test]
fn without_a_marker_the_stem_is_the_show_at_best() {
    let info = parse("random title [1080p].mkv");
    assert_eq!(info.show_name_part, text("random.title.[1080p]"));
    assert_eq!(info.season_prefix_part, None);
    assert_eq!(info.episode_number_part, None);
    assert_eq!(info.remainder_part, None);
    assert!(info.needs_fallback);
}

#[test]
fn strips_the_release_suffix() {
    let info = parse("Show.S01E02.720p-GROUP[rartv].mkv");
    assert_eq!(info.show_name_part, text("show"));
    assert_eq!(info.remainder_part, text("720p"));
    let info = parse("Show S01E02 -GRP[x].mkv");
    assert_eq!(info.remainder_part, None);
    let info = parse("Show-GRP[x].mkv");
    assert_eq!(info.show_name_part, text("show"));
}

#[test]
fn a_release_suffix_may_take_the_marker_away() {
    let info = parse("A-b S01E02 x[y].mkv");
    assert_eq!(info.show_name_part, text("a"));
    assert_eq!(info.season_prefix_part, None);
    assert_eq!(info.episode_number_part, None);
}

#[test]
fn only_the_last_group_of_several_is_stripped() {
    let info = parse("Show S01E02 x-a[b]-c[d].mkv");
    assert_eq!(info.remainder_part, text("x-a[b]"));
}

#[test]
fn splits_the_extension_at_the_last_dot() {
    assert_eq!(parse("archive.tar.gz").extension, "gz");
    assert_eq!(parse("archive.tar.gz").show_name_part, text("archive.tar"));
    assert_eq!(parse("noext").extension, "");
    assert_eq!(parse("noext").show_name_part, text("noext"));
    assert_eq!(parse("name.").extension, "");
    assert_eq!(parse("name.").show_name_part, text("name"));
}

#[test]
fn a_leading_dot_starts_no_extension() {
    assert_eq!(parse(".hidden").extension, "");
    assert_eq!(parse(".hidden").show_name_part, text("hidden"));
    assert_eq!(parse(".a.b").extension, "b");
    assert_eq!(parse("..").extension, "");
    assert_eq!(parse("..").show_name_part, text("."));
}

#[test]
fn the_marker_in_the_extension_is_not_seen() {
    let info = parse("Show.S01E02");
    assert_eq!(info.extension, "S01E02");
    assert_eq!(info.season_prefix_part, None);
    assert_eq!(info.show_name_part, text("show"));
}

#[test]
fn digits_of_other_scripts_make_no_marker() {
    let info = parse("Show S\u{661}E\u{662}.mkv");
    assert_eq!(info.season_prefix_part, None);
    assert_eq!(info.episode_number_part, None);
}

#[test]
fn fallback_is_needed_exactly_when_show_or_season_is_missing() {
    let names = [
        "Show S01E02.mkv",
        "S01E02.mkv",
        "Show.E01.mkv",
        "E01.mkv",
        "plain.mkv",
        " .mkv",
        "Show.S01E02.720p-GROUP[rartv].mkv",
    ];
    for name in names {
        let info = parse(name);
        assert_eq!(
            info.needs_fallback,
            info.show_name_part.is_none() || info.season_prefix_part.is_none(),
            "on {:?}",
            name
        );
    }
}
