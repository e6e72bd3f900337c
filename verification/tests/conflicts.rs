use episode_renamer::conflicts::{detect_conflicts, Conflict};
use episode_renamer::paths::FilePath;
use episode_renamer::plan::RenamePlan;

fn path(name: &str) -> FilePath {
    FilePath::new("/videos", name)
}

fn plan_of(renames: &[(&str, &str)]) -> RenamePlan {
    let mut plan = RenamePlan::new();
    for (old, new) in renames {
        plan.insert(path(old), path(new));
    }
    plan
}

fn paths(names: &[&str]) -> Vec<FilePath> {
    names.iter().map(|n| path(n)).collect()
}

#[test]
fn a_clean_plan_has_no_conflicts() {
    let plan = plan_of(&[("a", "x"), ("b", "y")]);
    assert_eq!(detect_conflicts(&plan, &paths(&["a", "b", "c"])), vec![]);
    assert_eq!(detect_conflicts(&RenamePlan::new(), &paths(&["a"])), vec![]);
}

#[test]
fn a_target_that_exists_is_a_foreign_collision() {
    let plan = plan_of(&[("a", "c")]);
    assert_eq!(
        detect_conflicts(&plan, &paths(&["a", "c"])),
        vec![Conflict::Foreign { target: path("c") }]
    );
}

#[test]
fn a_target_that_the_plan_moves_away_is_no_foreign_collision() {
    let plan = plan_of(&[("a", "b"), ("b", "c")]);
    assert_eq!(detect_conflicts(&plan, &paths(&["a", "b"])), vec![]);
    let swap = plan_of(&[("a", "b"), ("b", "a")]);
    assert_eq!(detect_conflicts(&swap, &paths(&["a", "b"])), vec![]);
}

#[test]
fn a_target_in_another_directory_is_another_place() {
    let plan = plan_of(&[("a", "c")]);
    let elsewhere = vec![FilePath::new("/other", "c")];
    assert_eq!(detect_conflicts(&plan, &elsewhere), vec![]);
}

#[test]
fn two_files_with_one_target_are_an_internal_collision() {
    let expected =
        vec![Conflict::Internal { target: path("c"), sources: vec![path("a"), path("b")] }];
    assert_eq!(detect_conflicts(&plan_of(&[("a", "c"), ("b", "c")]), &paths(&["a", "b"])), expected);
    assert_eq!(detect_conflicts(&plan_of(&[("b", "c"), ("a", "c")]), &paths(&["b", "a"])), expected);
}

#[test]
fn an_internal_collision_lists_all_its_files() {
    let plan = plan_of(&[("d", "x"), ("b", "x"), ("a", "y"), ("c", "x")]);
    assert_eq!(
        detect_conflicts(&plan, &vec![]),
        vec![Conflict::Internal {
            target: path("x"),
            sources: vec![path("b"), path("c"), path("d")]
        }]
    );
}

#[test]
fn all_collisions_are_collected_foreign_ones_first() {
    let plan = plan_of(&[("a", "x"), ("b", "x"), ("c", "y"), ("d", "z"), ("e", "z"), ("f", "w")]);
    let existing = paths(&["a", "b", "c", "d", "e", "f", "x", "w"]);
    assert_eq!(
        detect_conflicts(&plan, &existing),
        vec![
            Conflict::Foreign { target: path("x") },
            Conflict::Foreign { target: path("w") },
            Conflict::Internal { target: path("x"), sources: vec![path("a"), path("b")] },
            Conflict::Internal { target: path("z"), sources: vec![path("d"), path("e")] },
        ]
    );
}

#[test]
fn a_foreign_target_is_reported_once() {
    let plan = plan_of(&[("a", "x"), ("b", "x")]);
    let found = detect_conflicts(&plan, &paths(&["x", "x"]));
    assert_eq!(
        found,
        vec![
            Conflict::Foreign { target: path("x") },
            Conflict::Internal { target: path("x"), sources: vec![path("a"), path("b")] },
        ]
    );
}

#[test]
fn the_order_of_the_existing_files_does_not_matter() {
    let plan = plan_of(&[("a", "x"), ("b", "y")]);
    assert_eq!(
        detect_conflicts(&plan, &paths(&["x", "y", "a"])),
        detect_conflicts(&plan, &paths(&["a", "y", "x", "y"]))
    );
}
