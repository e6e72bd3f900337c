use episode_renamer::paths::{FilePath, Order};
use episode_renamer::plan::{Rename, RenamePlan};

fn path(name: &str) -> FilePath {
    FilePath::new("/videos", name)
}

fn rename(old: &str, new: &str) -> Rename {
    Rename { old_path: path(old), new_path: path(new) }
}

#[test]
fn a_new_plan_is_empty() {
    let plan = RenamePlan::new();
    assert!(plan.is_empty());
    assert_eq!(plan.len(), 0);
    assert!(plan.entries().is_empty());
}

#[test]
fn entries_come_in_the_order_of_the_old_places() {
    let mut plan = RenamePlan::new();
    plan.insert(path("m"), path("1"));
    plan.insert(path("z"), path("2"));
    plan.insert(path("a"), path("3"));
    plan.insert(path("n"), path("4"));
    assert_eq!(
        plan.entries(),
        &vec![rename("a", "3"), rename("m", "1"), rename("n", "4"), rename("z", "2")]
    );
    assert_eq!(plan.len(), 4);
    assert!(!plan.is_empty());
}

#[test]
fn a_second_rename_of_a_file_replaces_the_first() {
    let mut plan = RenamePlan::new();
    plan.insert(path("a"), path("x"));
    plan.insert(path("b"), path("y"));
    plan.insert(path("a"), path("z"));
    assert_eq!(plan.entries(), &vec![rename("a", "z"), rename("b", "y")]);
}

#[test]
fn the_order_of_planning_does_not_show() {
    let mut one = RenamePlan::new();
    one.insert(path("a"), path("c"));
    one.insert(path("b"), path("c"));
    let mut other = RenamePlan::new();
    other.insert(path("b"), path("c"));
    other.insert(path("a"), path("c"));
    assert_eq!(one, other);
}

#[test]
fn knows_its_sources() {
    let mut plan = RenamePlan::new();
    plan.insert(path("a"), path("b"));
    assert!(plan.contains_source(&path("a")));
    assert!(!plan.contains_source(&path("b")));
    assert!(!plan.contains_source(&FilePath::new("/other", "a")));
}

#[test]
fn places_are_ordered_by_directory_then_name() {
    let a = FilePath::new("a", "z");
    let b = FilePath::new("b", "a");
    assert_eq!(a.order(&b), Order::Before);
    assert_eq!(b.order(&a), Order::After);
    assert_eq!(a.order(&a.duplicate()), Order::Same);
    assert_eq!(FilePath::new("a", "x").order(&FilePath::new("a", "y")), Order::Before);
}

#[test]
fn texts_are_ordered_character_by_character() {
    let order = |x: &str, y: &str| FilePath::new("", x).order(&FilePath::new("", y));
    assert_eq!(order("", ""), Order::Same);
    assert_eq!(order("", "a"), Order::Before);
    assert_eq!(order("a", ""), Order::After);
    assert_eq!(order("ab", "abc"), Order::Before);
    assert_eq!(order("abd", "abc"), Order::After);
    assert_eq!(order("B", "a"), Order::Before);
    assert_eq!(order("z", "é"), Order::Before);
    let names = ["", "a", "B", "ab", "abc", "b", "é", "z", "Z10", "Z9"];
    for x in names {
        for y in names {
            let expected = match x.cmp(y) {
                std::cmp::Ordering::Less => Order::Before,
                std::cmp::Ordering::Equal => Order::Same,
                std::cmp::Ordering::Greater => Order::After,
            };
            assert_eq!(order(x, y), expected, "on {:?} and {:?}", x, y);
        }
    }
}

#[test]
fn places_are_the_same_only_with_the_same_directory_and_name() {
    assert!(path("a").same_as(&path("a")));
    assert!(!path("a").same_as(&path("b")));
    assert!(!path("a").same_as(&FilePath::new("/video", "a")));
    assert_eq!(path("a").sibling("b"), path("b"));
}
