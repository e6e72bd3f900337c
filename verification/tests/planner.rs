use episode_renamer::fallback::Fallback;
use episode_renamer::parser::{parse_filename, ParsedInfo};
use episode_renamer::paths::FilePath;
use episode_renamer::plan::Rename;
use episode_renamer::planner::{plan_name, plan_renames, SkipReason, Skipped};

fn parse(name: &str) -> ParsedInfo {
    parse_filename("/videos", name, true).unwrap()
}

fn applied(show: Option<&str>, season: &str) -> Fallback {
    Fallback::Applied { show: show.map(|s| s.to_string()), season: season.to_string() }
}

fn rename(old: &str, new: &str) -> Rename {
    Rename { old_path: FilePath::new("/videos", old), new_path: FilePath::new("/videos", new) }
}

fn name_of(item: &ParsedInfo, fallback: &Fallback) -> Result<String, SkipReason> {
    plan_name(item, fallback)
}

#[test]
fn joins_title_tokens_remainder_and_extension() {
    let item = parse("show.name.s01e02.720p.mkv");
    assert_eq!(name_of(&item, &Fallback::Unused), Ok("Show.Name.S01E02.720p.mkv".to_string()));
}

#[test]
fn leaves_the_remainder_out_where_there_is_none() {
    let item = parse("the show of shows s1e2.MKV");
    assert_eq!(name_of(&item, &Fallback::Unused), Ok("The.Show.of.Shows.S01E02.MKV".to_string()));
}

#[test]
fn leaves_the_extension_out_where_there_is_none() {
    let item = parse("Show S01E02");
    assert_eq!(name_of(&item, &Fallback::Unused), Ok("Show.S01E02".to_string()));
}

#[test]
fn keeps_the_case_of_the_extension() {
    let item = parse("show s01e02.Mp4");
    assert_eq!(name_of(&item, &Fallback::Unused), Ok("Show.S01E02.Mp4".to_string()));
}

#[test]
fn a_show_that_is_a_lone_dot_gives_an_empty_title() {
    let item = parse(" . S01E02.mkv");
    assert_eq!(name_of(&item, &Fallback::Unused), Ok(".S01E02.mkv".to_string()));
}

#[test]
fn a_complete_item_ignores_the_fallback() {
    let item = parse("Show S01E02.mkv");
    let fallback = applied(Some("other"), "S09");
    assert_eq!(name_of(&item, &fallback), Ok("Show.S01E02.mkv".to_string()));
}

#[test]
fn an_item_in_need_takes_show_and_season_of_the_fallback() {
    let item = parse("S01E02.mkv");
    let fallback = applied(Some("my.show"), "S05");
    assert_eq!(name_of(&item, &fallback), Ok("My.Show.S05E02.mkv".to_string()));
}

#[test]
fn an_item_in_need_keeps_its_show_where_the_fallback_has_none() {
    let item = parse("Show.E01.mkv");
    let fallback = applied(None, "S02");
    assert_eq!(name_of(&item, &fallback), Ok("Show.S02E01.mkv".to_string()));
}

#[test]
fn episode_and_remainder_are_never_overridden() {
    let item = parse("old.E07.extra.mkv");
    let fallback = applied(Some("new"), "S03");
    assert_eq!(name_of(&item, &fallback), Ok("New.S03E07.extra.mkv".to_string()));
}

#[test]
fn without_a_show_the_item_is_skipped() {
    let item = parse("S01E02.mkv");
    assert_eq!(name_of(&item, &Fallback::Unused), Err(SkipReason::MissingShow));
    assert_eq!(name_of(&item, &Fallback::Unusable), Err(SkipReason::MissingShow));
    assert_eq!(name_of(&item, &applied(None, "S01")), Err(SkipReason::MissingShow));
}

#[test]
fn with_an_empty_show_the_item_is_skipped() {
    let item = parse("S01E02.mkv");
    assert_eq!(name_of(&item, &applied(Some(""), "S01")), Err(SkipReason::EmptyShow));
}

#[test]
fn without_a_season_the_item_is_skipped() {
    let item = parse("Show.E01.mkv");
    assert_eq!(name_of(&item, &Fallback::Unused), Err(SkipReason::MissingSeason));
    assert_eq!(name_of(&item, &Fallback::Unusable), Err(SkipReason::MissingSeason));
}

#[test]
fn without_an_episode_no_fallback_helps() {
    let item = parse("random title [1080p].mkv");
    assert_eq!(
        name_of(&item, &applied(Some("show"), "S01")),
        Err(SkipReason::MissingEpisode)
    );
    assert_eq!(name_of(&item, &applied(None, "S01")), Err(SkipReason::MissingEpisode));
    assert_eq!(name_of(&item, &Fallback::Unusable), Err(SkipReason::MissingSeason));
}

#[test]
fn a_missing_episode_is_named_last_for_an_item_not_in_need() {
    let mut item = parse("Show S01E02.mkv");
    item.episode_number_part = None;
    assert_eq!(name_of(&item, &Fallback::Unused), Err(SkipReason::MissingEpisode));
    item.season_prefix_part = None;
    assert_eq!(name_of(&item, &Fallback::Unused), Err(SkipReason::MissingSeason));
}

#[test]
fn an_unusable_fallback_skips_every_item_in_need() {
    let items = vec![parse("S01E02.mkv"), parse("Show.E01.mkv"), parse("plain.mkv")];
    let outcome = plan_renames(&items, &Fallback::Unusable);
    assert!(outcome.plan.is_empty());
    assert_eq!(
        outcome.skipped,
        vec![
            Skipped { filename: "S01E02.mkv".to_string(), reason: SkipReason::MissingShow },
            Skipped { filename: "Show.E01.mkv".to_string(), reason: SkipReason::MissingSeason },
            Skipped { filename: "plain.mkv".to_string(), reason: SkipReason::MissingSeason },
        ]
    );
}

#[test]
fn a_name_that_is_already_canonical_is_left_out_of_the_plan() {
    let items = vec![parse("Show.Name.S01E01.mkv")];
    let outcome = plan_renames(&items, &Fallback::Unused);
    assert!(outcome.plan.is_empty());
    assert_eq!(outcome.plan.len(), 0);
    assert!(outcome.skipped.is_empty());
}

#[test]
fn the_plan_lists_renames_in_the_order_of_the_old_places() {
    let items = vec![
        parse("zeta s01e03.mkv"),
        parse("Alpha.S01E01.mkv"),
        parse("alpha s01e02.mkv"),
        parse("Beta s1e1.mkv"),
        parse("notes.mkv"),
    ];
    let outcome = plan_renames(&items, &Fallback::Unused);
    assert_eq!(
        outcome.plan.entries(),
        &vec![
            rename("Beta s1e1.mkv", "Beta.S01E01.mkv"),
            rename("alpha s01e02.mkv", "Alpha.S01E02.mkv"),
            rename("zeta s01e03.mkv", "Zeta.S01E03.mkv"),
        ]
    );
    assert_eq!(outcome.plan.len(), 3);
    assert_eq!(
        outcome.skipped,
        vec![Skipped { filename: "notes.mkv".to_string(), reason: SkipReason::MissingSeason }]
    );
}

#[test]
fn the_plan_keeps_the_directory() {
    let item = parse_filename("season one", "show s01e02.mkv", true).unwrap();
    let outcome = plan_renames(&vec![item], &Fallback::Unused);
    assert_eq!(
        outcome.plan.entries(),
        &vec![Rename {
            old_path: FilePath::new("season one", "show s01e02.mkv"),
            new_path: FilePath::new("season one", "Show.S01E02.mkv"),
        }]
    );
}

#[test]
fn a_file_listed_twice_is_renamed_once() {
    let items = vec![parse("show s01e02.mkv"), parse("show s01e02.mkv")];
    let outcome = plan_renames(&items, &Fallback::Unused);
    assert_eq!(outcome.plan.entries(), &vec![rename("show s01e02.mkv", "Show.S01E02.mkv")]);
}

#[test]
fn no_entry_of_a_plan_renames_a_file_to_its_own_place() {
    let items = vec![
        parse("Show.S01E01.mkv"),
        parse("show.S01E02.mkv"),
        parse("Show S01E03.mkv"),
        parse("Show.S01E04.x.mkv"),
    ];
    let outcome = plan_renames(&items, &Fallback::Unused);
    assert_eq!(outcome.plan.len(), 2);
    for entry in outcome.plan.entries() {
        assert_ne!(entry.old_path, entry.new_path);
    }
}
