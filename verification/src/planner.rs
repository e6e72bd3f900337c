//! The rename planner: from the parsed items and the fallback to the new
//! name of each file, and to the plan of all renames.

use crate::chars::{chars_of, string_of};
use crate::fallback::{item_texts, Fallback, FallbackText};
use crate::parser::{text_of, ParsedInfo, ParsedText};
use crate::paths::{same_text, PathText};
use crate::plan::{
    has_source, lemma_mapping, mapping, sorted_by_source, RenamePlan, RenameText,
};
use crate::text::extend;
use crate::title::{title_case_chars, title_cased};
use vstd::prelude::*;

verus! {

/// Why an item gets no new name.
#[derive(Clone, Copy, Debug, PartialEq, Eq, Structural)]
pub enum SkipReason {
    /// No show name, neither from the file name nor from the fallback.
    MissingShow,
    /// The show name is the empty text.
    EmptyShow,
    /// No season, neither from the file name nor from the fallback.
    MissingSeason,
    /// No episode number in the file name; no fallback can supply one.
    MissingEpisode,
}

/// An item that was left out of the plan.
#[derive(Clone, Debug, PartialEq, Eq)]
pub struct Skipped {
    /// The name of the file.
    pub filename: String,
    /// What it lacks.
    pub reason: SkipReason,
}

/// The texts of a `Skipped`.
pub struct SkippedText {
    pub filename: Seq<char>,
    pub reason: SkipReason,
}

impl View for Skipped {
    type V = SkippedText;

    open spec fn view(&self) -> SkippedText {
        SkippedText { filename: self.filename@, reason: self.reason }
    }
}

/// The texts of the skipped items.
pub open spec fn skipped_texts(skipped: Seq<Skipped>) -> Seq<SkippedText> {
    Seq::new(skipped.len(), |i: int| skipped[i]@)
}

/// The fallback replaces what the item's own name gave.
pub open spec fn overrides(item: ParsedText, fallback: FallbackText) -> bool {
    item.needs_fallback && fallback is Applied
}

/// The show name an item ends up with: that of an applied fallback, for an
/// item in need and where the fallback has one; else its own.
pub open spec fn final_show(item: ParsedText, fallback: FallbackText) -> Option<Seq<char>> {
    match fallback {
        FallbackText::Applied { show: Some(show), .. } if item.needs_fallback => Some(show),
        _ => item.show_name_part,
    }
}

/// The season token an item ends up with: that of an applied fallback, for an
/// item in need; else its own.
pub open spec fn final_season(item: ParsedText, fallback: FallbackText) -> Option<Seq<char>> {
    match fallback {
        FallbackText::Applied { season, .. } if item.needs_fallback => Some(season),
        _ => item.season_prefix_part,
    }
}

/// What keeps an item out of the plan, if anything: a missing or empty show
/// name, a missing season or a missing episode, after the fallback has been
/// applied. Where several are missing, the episode is named first for an item
/// that the fallback was applied to, and last for any other.
pub open spec fn skip_reason(item: ParsedText, fallback: FallbackText) -> Option<SkipReason> {
    let show = final_show(item, fallback);
    if overrides(item, fallback) && item.episode_number_part is None {
        Some(SkipReason::MissingEpisode)
    } else if show is None {
        Some(SkipReason::MissingShow)
    } else if show->0.len() == 0 {
        Some(SkipReason::EmptyShow)
    } else if final_season(item, fallback) is None {
        Some(SkipReason::MissingSeason)
    } else if item.episode_number_part is None {
        Some(SkipReason::MissingEpisode)
    } else {
        None
    }
}

/// The new stem: the title-cased show name, the season and episode tokens as
/// one block, and the remainder if there is one, joined by full stops.
pub open spec fn new_stem(
    show: Seq<char>,
    season: Seq<char>,
    episode: Seq<char>,
    remainder: Option<Seq<char>>,
) -> Seq<char> {
    let head = title_cased(show) + seq!['.'] + season + episode;
    match remainder {
        Some(r) if r.len() > 0 => head + seq!['.'] + r,
        _ => head,
    }
}

/// `stem` with the extension behind a full stop, or alone where there is no
/// extension.
pub open spec fn with_extension(stem: Seq<char>, extension: Seq<char>) -> Seq<char> {
    if extension.len() == 0 {
        stem
    } else {
        stem + seq!['.'] + extension
    }
}

/// The new name of an item, or why it gets none.
pub open spec fn planned_name(item: ParsedText, fallback: FallbackText) -> Result<
    Seq<char>,
    SkipReason,
> {
    match skip_reason(item, fallback) {
        Some(reason) => Err(reason),
        None => Ok(
            with_extension(
                new_stem(
                    final_show(item, fallback)->0,
                    final_season(item, fallback)->0,
                    item.episode_number_part->0,
                    item.remainder_part,
                ),
                item.extension,
            ),
        ),
    }
}

/// The rename that an item brings into the plan: none where it gets no new
/// name, and none where the new name is the one it has.
pub open spec fn planned_rename(item: ParsedText, fallback: FallbackText) -> Option<RenameText> {
    match planned_name(item, fallback) {
        Ok(name) => {
            let new_path = PathText { directory: item.original_path.directory, name };
            if name != item.original_filename && new_path != item.original_path {
                Some(RenameText { old_path: item.original_path, new_path })
            } else {
                None
            }
        },
        Err(_) => None,
    }
}

/// The plan for the items, as a mapping from old place to new place: the
/// renames of the items, taken in turn.
pub open spec fn planned(items: Seq<ParsedText>, fallback: FallbackText) -> Map<PathText, PathText>
    decreases items.len(),
{
    if items.len() == 0 {
        Map::empty()
    } else {
        let before = planned(items.drop_last(), fallback);
        match planned_rename(items.last(), fallback) {
            Some(rename) => before.insert(rename.old_path, rename.new_path),
            None => before,
        }
    }
}

/// The items that get no new name, in turn, each with what it lacks.
pub open spec fn skipped(items: Seq<ParsedText>, fallback: FallbackText) -> Seq<SkippedText>
    decreases items.len(),
{
    if items.len() == 0 {
        Seq::empty()
    } else {
        let before = skipped(items.drop_last(), fallback);
        match skip_reason(items.last(), fallback) {
            Some(reason) => before.push(
                SkippedText { filename: items.last().original_filename, reason },
            ),
            None => before,
        }
    }
}

/// The plan never renames a file to the place where it lies.
pub proof fn plan_has_no_noop(items: Seq<ParsedText>, fallback: FallbackText)
    ensures
        forall|old_path: PathText| #[trigger]
            planned(items, fallback).dom().contains(old_path) ==> planned(
                items,
                fallback,
            )[old_path] != old_path,
    decreases items.len(),
{
    if items.len() > 0 {
        let before = planned(items.drop_last(), fallback);
        plan_has_no_noop(items.drop_last(), fallback);
        assert forall|old_path: PathText| #[trigger]
            planned(items, fallback).dom().contains(old_path) implies planned(
            items,
            fallback,
        )[old_path] != old_path by {
            match planned_rename(items.last(), fallback) {
                Some(rename) => {
                    if old_path != rename.old_path {
                        assert(before.dom().contains(old_path));
                    }
                },
                None => {
                    assert(before.dom().contains(old_path));
                },
            }
        }
    }
}

/// No fallback supplies an episode: an item without an episode token gets no
/// new name, whatever the fallback.
pub proof fn no_fallback_supplies_an_episode(item: ParsedText, fallback: FallbackText)
    requires
        item.episode_number_part is None,
    ensures
        planned_name(item, fallback) is Err,
        planned_rename(item, fallback) is None,
{
}

/// Without a fallback that applies, every item in need is skipped: an item
/// that lacks show name or season gets no new name where the fallback is
/// unused or unusable.
pub proof fn items_in_need_are_skipped_without_fallback(item: ParsedText, fallback: FallbackText)
    requires
        item.show_name_part is None || item.season_prefix_part is None,
        !(fallback is Applied),
    ensures
        planned_name(item, fallback) is Err,
        planned_rename(item, fallback) is None,
{
}

/// Entries in order rename no file to the place where it lies, where their
/// mapping does not.
proof fn lemma_entries_have_no_noop(entries: Seq<RenameText>)
    requires
        sorted_by_source(entries),
        forall|old_path: PathText| #[trigger]
            mapping(entries).dom().contains(old_path) ==> mapping(entries)[old_path] != old_path,
    ensures
        forall|i: int|
            0 <= i < entries.len() ==> (#[trigger] entries[i]).old_path != entries[i].new_path,
{
    lemma_mapping(entries);
    assert forall|i: int| 0 <= i < entries.len() implies (#[trigger] entries[i]).old_path
        != entries[i].new_path by {
        assert(has_source(entries, entries[i].old_path));
        assert(mapping(entries).dom().contains(entries[i].old_path));
    }
}

/// What the plan holds and what it leaves out.
#[derive(Debug, PartialEq, Eq)]
pub struct PlanOutcome {
    /// The renames to make.
    pub plan: RenamePlan,
    /// The items that got no new name.
    pub skipped: Vec<Skipped>,
}

fn chars_of_option(s: &Option<String>) -> (r: Option<Vec<char>>)
    ensures
        match r {
            Some(v) => text_of(*s) == Some(v@),
            None => text_of(*s) is None,
        },
{
    match s {
        Some(t) => Some(chars_of(t.as_str())),
        None => None,
    }
}

/// Works out the new name of one item: the fallback is applied where the item
/// needs it, an item that still lacks show name, season or episode is
/// refused, and the name is put together from the rest.
pub fn plan_name(item: &ParsedInfo, fallback: &Fallback) -> (r: Result<String, SkipReason>)
    ensures
        match r {
            Ok(name) => planned_name(item@, fallback@) == Ok::<Seq<char>, SkipReason>(name@),
            Err(reason) => planned_name(item@, fallback@) == Err::<Seq<char>, SkipReason>(reason),
        },
{
    let mut show = chars_of_option(&item.show_name_part);
    let mut season = chars_of_option(&item.season_prefix_part);
    let episode = chars_of_option(&item.episode_number_part);
    let remainder = chars_of_option(&item.remainder_part);
    if item.needs_fallback {
        match fallback {
            Fallback::Applied { show: given_show, season: given_season } => {
                match given_show {
                    Some(given) => {
                        show = Some(chars_of(given.as_str()));
                    },
                    None => {},
                }
                season = Some(chars_of(given_season.as_str()));
                if episode.is_none() {
                    return Err(SkipReason::MissingEpisode);
                }
            },
            _ => {},
        }
    }
    let show = match show {
        Some(show) => show,
        None => {
            return Err(SkipReason::MissingShow);
        },
    };
    if show.len() == 0 {
        return Err(SkipReason::EmptyShow);
    }
    let season = match season {
        Some(season) => season,
        None => {
            return Err(SkipReason::MissingSeason);
        },
    };
    let episode = match episode {
        Some(episode) => episode,
        None => {
            return Err(SkipReason::MissingEpisode);
        },
    };
    let mut name = title_case_chars(&show);
    name.push('.');
    extend(&mut name, &season);
    extend(&mut name, &episode);
    match remainder {
        Some(r) => {
            if r.len() > 0 {
                name.push('.');
                extend(&mut name, &r);
            }
        },
        None => {},
    }
    let extension = chars_of(item.extension.as_str());
    if extension.len() > 0 {
        name.push('.');
        extend(&mut name, &extension);
    }
    proof {
        let head = title_cased(show@) + seq!['.'] + season@ + episode@;
        let stem = new_stem(show@, season@, episode@, text_of(item.remainder_part));
        assert(name@ =~= with_extension(stem, item@.extension));
    }
    Ok(string_of(&name))
}

/// Plans the renames of all items: each item that gets a new name other than
/// the one it has brings one rename, from its place to the place of the new
/// name in the same directory. The plan lists them in the order of the old
/// places. The items that get no new name are listed with what they lack.
pub fn plan_renames(items: &Vec<ParsedInfo>, fallback: &Fallback) -> (outcome: PlanOutcome)
    ensures
        mapping(outcome.plan@) == planned(item_texts(items@), fallback@),
        sorted_by_source(outcome.plan@),
        forall|i: int|
            0 <= i < outcome.plan@.len() ==> (#[trigger] outcome.plan@[i]).old_path
                != outcome.plan@[i].new_path,
        skipped_texts(outcome.skipped@) == skipped(item_texts(items@), fallback@),
{
    let mut plan = RenamePlan::new();
    let mut left_out: Vec<Skipped> = Vec::new();
    let ghost texts = item_texts(items@);
    let mut i: usize = 0;
    while i < items.len()
        invariant
            i <= items.len(),
            texts == item_texts(items@),
            mapping(plan@) == planned(texts.take(i as int), fallback@),
            sorted_by_source(plan@),
            skipped_texts(left_out@) == skipped(texts.take(i as int), fallback@),
        decreases items.len() - i,
    {
        let item = &items[i];
        proof {
            assert(texts.take(i + 1).drop_last() =~= texts.take(i as int));
            assert(texts.take(i + 1).last() == item@);
        }
        let ghost before = skipped_texts(left_out@);
        match plan_name(item, fallback) {
            Ok(name) => {
                let new_path = item.original_path.sibling(name.as_str());
                if !same_text(&name, &item.original_filename) && !new_path.same_as(
                    &item.original_path,
                ) {
                    plan.insert(item.original_path.duplicate(), new_path);
                }
            },
            Err(reason) => {
                left_out.push(Skipped { filename: item.original_filename.clone(), reason });
                assert(skipped_texts(left_out@) =~= before.push(
                    SkippedText { filename: item@.original_filename, reason },
                ));
            },
        }
        i += 1;
    }
    assert(texts.take(items.len() as int) =~= texts);
    proof {
        plan_has_no_noop(texts, fallback@);
        lemma_entries_have_no_noop(plan@);
    }
    PlanOutcome { plan, skipped: left_out }
}

} // verus!
