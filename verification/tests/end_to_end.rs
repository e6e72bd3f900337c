use episode_renamer::conflicts::{detect_conflicts, Conflict};
use episode_renamer::fallback::{any_needs_fallback, resolve_fallback, Fallback};
use episode_renamer::parser::{parse_filename, ParsedInfo};
use episode_renamer::paths::FilePath;
use episode_renamer::plan::Rename;
use episode_renamer::planner::{plan_name, plan_renames, SkipReason, Skipped};

fn parse(name: &str) -> ParsedInfo {
    parse_filename("/videos", name, true).unwrap()
}

fn path(name: &str) -> FilePath {
    FilePath::new("/videos", name)
}

#[test]
fn a_spaced_name_with_a_short_marker() {
    let item = parse("Some Show - S2E14.mkv");
    assert_eq!(item.show_name_part, Some("some.show.-".to_string()));
    assert_eq!(item.season_prefix_part, Some("S02".to_string()));
    assert_eq!(item.episode_number_part, Some("E14".to_string()));
    assert_eq!(item.remainder_part, None);
    assert!(!item.needs_fallback);
    assert_eq!(plan_name(&item, &Fallback::Unused), Ok("Some.Show.-.S02E14.mkv".to_string()));
}

#[test]
fn a_name_without_any_marker_cannot_be_renamed() {
    let item = parse("random title [1080p].mkv");
    assert!(item.needs_fallback);
    assert_eq!(item.episode_number_part, None);
    let items = vec![item];
    assert!(any_needs_fallback(&items));
    for fallback in [
        resolve_fallback("Random Title", "1"),
        resolve_fallback("", "1"),
        resolve_fallback("Random Title", "one"),
        Fallback::Unused,
    ] {
        let outcome = plan_renames(&items, &fallback);
        assert!(outcome.plan.is_empty());
        assert_eq!(outcome.skipped.len(), 1);
        assert_eq!(outcome.skipped[0].filename, "random title [1080p].mkv");
    }
    let outcome = plan_renames(&items, &resolve_fallback("Random Title", "1"));
    assert_eq!(
        outcome.skipped,
        vec![Skipped {
            filename: "random title [1080p].mkv".to_string(),
            reason: SkipReason::MissingEpisode
        }]
    );
}

#[test]
fn two_spellings_of_one_episode_collide() {
    let items = vec![parse("Show.E01.mkv"), parse("Show.E1.mkv")];
    assert!(any_needs_fallback(&items));
    let fallback = resolve_fallback("", "2");
    let outcome = plan_renames(&items, &fallback);
    assert!(outcome.skipped.is_empty());
    assert_eq!(
        outcome.plan.entries(),
        &vec![
            Rename { old_path: path("Show.E01.mkv"), new_path: path("Show.S02E01.mkv") },
            Rename { old_path: path("Show.E1.mkv"), new_path: path("Show.S02E01.mkv") },
        ]
    );
    let existing = vec![path("Show.E01.mkv"), path("Show.E1.mkv")];
    assert_eq!(
        detect_conflicts(&outcome.plan, &existing),
        vec![Conflict::Internal {
            target: path("Show.S02E01.mkv"),
            sources: vec![path("Show.E01.mkv"), path("Show.E1.mkv")],
        }]
    );
}

#[test]
fn a_whole_directory() {
    let names = [
        "The Expanse S01E01 Dulcinea 1080p-GRP[src].mkv",
        "the.expanse.s01e02.the.big.empty.mkv",
        "The.Expanse.S01E03.mkv",
        "E04.mkv",
        "cover.mkv",
    ];
    let items: Vec<ParsedInfo> = names.iter().map(|n| parse(n)).collect();
    assert!(any_needs_fallback(&items));
    let fallback = resolve_fallback("The Expanse", "Season 1");
    let outcome = plan_renames(&items, &fallback);
    assert_eq!(
        outcome.plan.entries(),
        &vec![
            Rename { old_path: path("E04.mkv"), new_path: path("The.Expanse.S01E04.mkv") },
            Rename {
                old_path: path("The Expanse S01E01 Dulcinea 1080p-GRP[src].mkv"),
                new_path: path("The.Expanse.S01E01.dulcinea.1080p.mkv"),
            },
            Rename {
                old_path: path("the.expanse.s01e02.the.big.empty.mkv"),
                new_path: path("The.Expanse.S01E02.the.big.empty.mkv"),
            },
        ]
    );
    assert_eq!(
        outcome.skipped,
        vec![Skipped { filename: "cover.mkv".to_string(), reason: SkipReason::MissingEpisode }]
    );
    let existing: Vec<FilePath> = names.iter().map(|n| path(n)).collect();
    assert_eq!(detect_conflicts(&outcome.plan, &existing), vec![]);
}

#[test]
fn a_planned_name_parses_to_the_tokens_that_went_into_it() {
    let names = [
        "Some Show - S2E14.mkv",
        "show.name.s01e02.720p.mkv",
        "Show S123E7 x.mkv",
        "the.war.of.the.worlds.S001E001.mkv",
        " . S01E02.mkv",
        "Show.S01E02.S03E04.mkv",
        "Show S01E1234.mkv",
        "Show S01E02 rem",
        "Pokémon s1e2 épisode.avi",
    ];
    for name in names {
        let item = parse(name);
        let planned = plan_name(&item, &Fallback::Unused).unwrap();
        let again = parse(&planned);
        assert_eq!(again.season_prefix_part, item.season_prefix_part, "on {:?}", name);
        assert_eq!(again.episode_number_part, item.episode_number_part, "on {:?}", name);
        assert_eq!(plan_name(&again, &Fallback::Unused), Ok(planned), "on {:?}", name);
    }
}

#[test]
fn a_planned_name_with_a_fallback_parses_to_the_tokens_of_the_plan() {
    let item = parse("S01E02.mkv");
    let fallback = resolve_fallback("My Show", "5");
    let planned = plan_name(&item, &fallback).unwrap();
    assert_eq!(planned, "My.Show.S05E02.mkv");
    let again = parse(&planned);
    assert_eq!(again.season_prefix_part, Some("S05".to_string()));
    assert_eq!(again.episode_number_part, Some("E02".to_string()));
}

#[test]
fn a_planned_name_without_extension_and_remainder_loses_its_tokens() {
    let item = parse("Show S01E02");
    let planned = plan_name(&item, &Fallback::Unused).unwrap();
    assert_eq!(planned, "Show.S01E02");
    assert_eq!(parse(&planned).season_prefix_part, None);
}

#[test]
fn a_planned_name_with_a_hyphen_in_the_show_may_lose_its_tokens() {
    let item = parse("a-b S01E02 x[y]-g[z].mkv");
    assert_eq!(item.show_name_part, Some("a-b".to_string()));
    assert_eq!(item.remainder_part, Some("x[y]".to_string()));
    let planned = plan_name(&item, &Fallback::Unused).unwrap();
    assert_eq!(planned, "A-b.S01E02.x[y].mkv");
    assert_eq!(parse(&planned).season_prefix_part, None);
}

#[test]
fn a_show_name_that_becomes_a_marker_when_capitalized_comes_first() {
    // a sharp s in front upper-cases to two letters, the second of which begins a marker
    let item = parse("ß3e4 S01E02.mkv");
    assert_eq!(item.show_name_part, Some("ß3e4".to_string()));
    assert_eq!(item.season_prefix_part, Some("S01".to_string()));
    let planned = plan_name(&item, &Fallback::Unused).unwrap();
    assert_eq!(planned, "SS3e4.S01E02.mkv");
    let again = parse(&planned);
    assert_eq!(again.season_prefix_part, Some("S03".to_string()));
    assert_eq!(again.episode_number_part, Some("E04".to_string()));
}

#[test]
fn a_fallback_show_with_a_marker_of_its_own_comes_first() {
    let item = parse("S01E02.mkv");
    let fallback = resolve_fallback("s7e8 files", "1");
    let planned = plan_name(&item, &fallback).unwrap();
    assert_eq!(planned, "S7e8.Files.S01E02.mkv");
    let again = parse(&planned);
    assert_eq!(again.season_prefix_part, Some("S07".to_string()));
    assert_eq!(again.episode_number_part, Some("E08".to_string()));
    // where that marker carries the tokens of the plan, they come out the same
    let fallback = resolve_fallback("s1e2 files", "1");
    let planned = plan_name(&item, &fallback).unwrap();
    let again = parse(&planned);
    assert_eq!(again.season_prefix_part, Some("S01".to_string()));
    assert_eq!(again.episode_number_part, Some("E02".to_string()));
}

#[test]
fn a_fallback_season_of_four_digits_is_not_read_back() {
    let item = parse("Show.E05.mkv");
    let fallback = resolve_fallback("", "2024");
    let planned = plan_name(&item, &fallback).unwrap();
    assert_eq!(planned, "Show.S2024E05.mkv");
    assert_eq!(parse(&planned).season_prefix_part, None);
}
