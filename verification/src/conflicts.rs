//! The conflict detector: what stands in the way of a plan, found before
//! anything is renamed.

use crate::paths::{FilePath, PathText};
use crate::plan::{
    has_source, lemma_entries_of_mapping, mapping, rename_texts, sorted_by_source, Rename,
    RenamePlan, RenameText,
};
use vstd::prelude::*;

verus! {

/// A reason not to carry out a plan.
#[derive(Clone, Debug, PartialEq, Eq)]
pub enum Conflict {
    /// The target exists already and the plan does not move it away.
    Foreign {
        /// The place that is taken.
        target: FilePath,
    },
    /// Two or more files are to be renamed to the same target.
    Internal {
        /// The place that they would share.
        target: FilePath,
        /// The files that map to it, in the order of their places.
        sources: Vec<FilePath>,
    },
}

/// The texts of a `Conflict`.
pub enum ConflictText {
    Foreign { target: PathText },
    Internal { target: PathText, sources: Seq<PathText> },
}

/// The texts of the places.
pub open spec fn path_texts(paths: Seq<FilePath>) -> Seq<PathText> {
    Seq::new(paths.len(), |i: int| paths[i]@)
}

impl View for Conflict {
    type V = ConflictText;

    open spec fn view(&self) -> ConflictText {
        match self {
            Conflict::Foreign { target } => ConflictText::Foreign { target: target@ },
            Conflict::Internal { target, sources } => ConflictText::Internal {
                target: target@,
                sources: path_texts(sources@),
            },
        }
    }
}

/// The texts of the conflicts.
pub open spec fn conflict_texts(conflicts: Seq<Conflict>) -> Seq<ConflictText> {
    Seq::new(conflicts.len(), |i: int| conflicts[i]@)
}

/// No entry before the one at `i` has its target.
pub open spec fn first_with_target(entries: Seq<RenameText>, i: int) -> bool {
    forall|j: int| 0 <= j < i ==> (#[trigger] entries[j]).new_path != entries[i].new_path
}

/// The old places, among the first `n` entries, of the files that are to be
/// renamed to `target`, in the order of the entries.
pub open spec fn sources_of(entries: Seq<RenameText>, target: PathText, n: nat) -> Seq<PathText>
    decreases n,
{
    if n == 0 {
        Seq::empty()
    } else {
        let before = sources_of(entries, target, (n - 1) as nat);
        if entries[n - 1].new_path == target {
            before.push(entries[n - 1].old_path)
        } else {
            before
        }
    }
}

/// `target` is taken by a file that the plan leaves where it is.
pub open spec fn is_foreign(
    entries: Seq<RenameText>,
    existing: Seq<PathText>,
    target: PathText,
) -> bool {
    existing.contains(target) && !has_source(entries, target)
}

/// The foreign collisions among the targets of the first `n` entries, one
/// for each such target, in the order in which the targets first come up.
pub open spec fn foreign_conflicts(
    entries: Seq<RenameText>,
    existing: Seq<PathText>,
    n: nat,
) -> Seq<ConflictText>
    decreases n,
{
    if n == 0 {
        Seq::empty()
    } else {
        let before = foreign_conflicts(entries, existing, (n - 1) as nat);
        let target = entries[n - 1].new_path;
        if first_with_target(entries, n - 1) && is_foreign(entries, existing, target) {
            before.push(ConflictText::Foreign { target })
        } else {
            before
        }
    }
}

/// The internal collisions among the targets of the first `n` entries, one
/// for each target that two or more entries of the whole plan share, in the
/// order in which the targets first come up; each lists all the files that
/// map to the target.
pub open spec fn internal_conflicts(entries: Seq<RenameText>, n: nat) -> Seq<ConflictText>
    decreases n,
{
    if n == 0 {
        Seq::empty()
    } else {
        let before = internal_conflicts(entries, (n - 1) as nat);
        let target = entries[n - 1].new_path;
        let sources = sources_of(entries, target, entries.len());
        if first_with_target(entries, n - 1) && sources.len() >= 2 {
            before.push(ConflictText::Internal { target, sources })
        } else {
            before
        }
    }
}

/// All that stands in the way of the plan: the foreign collisions, then the
/// internal ones.
pub open spec fn conflicts_of(entries: Seq<RenameText>, existing: Seq<PathText>) -> Seq<
    ConflictText,
> {
    foreign_conflicts(entries, existing, entries.len()) + internal_conflicts(
        entries,
        entries.len(),
    )
}

/// How many of the conflicts are internal collisions on `target`.
pub open spec fn internal_reports(conflicts: Seq<ConflictText>, target: PathText) -> nat
    decreases conflicts.len(),
{
    if conflicts.len() == 0 {
        0
    } else {
        let before = internal_reports(conflicts.drop_last(), target);
        match conflicts.last() {
            ConflictText::Internal { target: t, .. } if t == target => before + 1,
            _ => before,
        }
    }
}

/// An entry is the first with its target exactly if no entry before it is a
/// source of that target.
proof fn lemma_first_with_target(entries: Seq<RenameText>, target: PathText, n: nat)
    requires
        n <= entries.len(),
    ensures
        sources_of(entries, target, n).len() == 0 <==> forall|j: int|
            0 <= j < n ==> (#[trigger] entries[j]).new_path != target,
        sources_of(entries, target, n).len() <= n,
        forall|j: int|
            0 <= j < n && (#[trigger] entries[j]).new_path == target ==> sources_of(
                entries,
                target,
                n,
            ).contains(entries[j].old_path),
    decreases n,
{
    if n > 0 {
        lemma_first_with_target(entries, target, (n - 1) as nat);
        let before = sources_of(entries, target, (n - 1) as nat);
        let now = sources_of(entries, target, n);
        if entries[n - 1].new_path == target {
            assert(now.last() == entries[n - 1].old_path);
        }
        assert forall|j: int| 0 <= j < n && (#[trigger] entries[j]).new_path == target implies now.contains(
            entries[j].old_path,
        ) by {
            if j < n - 1 {
                let k = choose|k: int| 0 <= k < before.len() && before[k] == entries[j].old_path;
                assert(now[k] == entries[j].old_path);
            } else {
                assert(now[now.len() - 1] == entries[j].old_path);
            }
        }
    }
}

/// The sources counted among more entries are no fewer.
proof fn lemma_sources_grow(entries: Seq<RenameText>, target: PathText, n: nat, m: nat)
    requires
        n <= m,
    ensures
        sources_of(entries, target, n).len() <= sources_of(entries, target, m).len(),
    decreases m - n,
{
    if n < m {
        lemma_sources_grow(entries, target, n, (m - 1) as nat);
    }
}

/// Among the internal collisions found on the first `n` entries there is one
/// on `target` if an entry among them has that target and two or more entries
/// of the plan share it, and none otherwise. Each internal collision lists
/// all the sources of its target, two at least.
proof fn lemma_internal_reports(entries: Seq<RenameText>, target: PathText, n: nat)
    requires
        n <= entries.len(),
    ensures
        internal_reports(internal_conflicts(entries, n), target) == if sources_of(
            entries,
            target,
            n,
        ).len() > 0 && sources_of(entries, target, entries.len()).len() >= 2 {
            1nat
        } else {
            0nat
        },
        forall|k: int|
            0 <= k < internal_conflicts(entries, n).len() ==> match #[trigger] internal_conflicts(
                entries,
                n,
            )[k] {
                ConflictText::Internal { target: t, sources } => sources == sources_of(
                    entries,
                    t,
                    entries.len(),
                ) && sources.len() >= 2,
                ConflictText::Foreign { .. } => false,
            },
    decreases n,
{
    if n > 0 {
        let before = internal_conflicts(entries, (n - 1) as nat);
        let now = internal_conflicts(entries, n);
        lemma_internal_reports(entries, target, (n - 1) as nat);
        let here = entries[n - 1].new_path;
        lemma_first_with_target(entries, here, (n - 1) as nat);
        let all = sources_of(entries, here, entries.len());
        if first_with_target(entries, n - 1) && all.len() >= 2 {
            assert(now.drop_last() =~= before);
            assert forall|k: int| 0 <= k < now.len() implies match #[trigger] now[k] {
                ConflictText::Internal { target: t, sources } => sources == sources_of(
                    entries,
                    t,
                    entries.len(),
                ) && sources.len() >= 2,
                ConflictText::Foreign { .. } => false,
            } by {
                if k < before.len() {
                    assert(now[k] == before[k]);
                }
            }
        } else if here == target && !first_with_target(entries, n - 1) {
            assert(sources_of(entries, target, (n - 1) as nat).len() > 0);
        }
    }
}

/// Every target that two or more files of the plan map to is reported as an
/// internal collision exactly once, whatever the order in which the renames
/// were planned, and the report lists every one of those files; a target that
/// fewer than two files map to is not reported as one.
pub proof fn shared_target_reported_once(
    entries: Seq<RenameText>,
    existing: Seq<PathText>,
    target: PathText,
)
    ensures
        internal_reports(conflicts_of(entries, existing), target) == if sources_of(
            entries,
            target,
            entries.len(),
        ).len() >= 2 {
            1nat
        } else {
            0nat
        },
        forall|k: int|
            0 <= k < conflicts_of(entries, existing).len() ==> match #[trigger] conflicts_of(
                entries,
                existing,
            )[k] {
                ConflictText::Internal { target: t, sources } => sources == sources_of(
                    entries,
                    t,
                    entries.len(),
                ) && sources.len() >= 2,
                ConflictText::Foreign { .. } => true,
            },
        forall|i: int|
            0 <= i < entries.len() && (#[trigger] entries[i]).new_path == target ==> sources_of(
                entries,
                target,
                entries.len(),
            ).contains(entries[i].old_path),
{
    let foreign = foreign_conflicts(entries, existing, entries.len());
    let internal = internal_conflicts(entries, entries.len());
    lemma_internal_reports(entries, target, entries.len());
    lemma_first_with_target(entries, target, entries.len());
    lemma_foreign_only(entries, existing, entries.len());
    lemma_reports_after(foreign, internal, target);
    assert forall|k: int| 0 <= k < conflicts_of(entries, existing).len() implies match #[trigger] conflicts_of(
        entries,
        existing,
    )[k] {
        ConflictText::Internal { target: t, sources } => sources == sources_of(
            entries,
            t,
            entries.len(),
        ) && sources.len() >= 2,
        ConflictText::Foreign { .. } => true,
    } by {
        if k < foreign.len() {
            assert(conflicts_of(entries, existing)[k] == foreign[k]);
        } else {
            assert(conflicts_of(entries, existing)[k] == internal[k - foreign.len()]);
        }
    }
}

/// The foreign collisions hold no internal one.
proof fn lemma_foreign_only(entries: Seq<RenameText>, existing: Seq<PathText>, n: nat)
    ensures
        forall|k: int|
            0 <= k < foreign_conflicts(entries, existing, n).len() ==> (#[trigger] foreign_conflicts(
                entries,
                existing,
                n,
            )[k]) is Foreign,
    decreases n,
{
    if n > 0 {
        lemma_foreign_only(entries, existing, (n - 1) as nat);
        let before = foreign_conflicts(entries, existing, (n - 1) as nat);
        let now = foreign_conflicts(entries, existing, n);
        assert forall|k: int| 0 <= k < now.len() implies (#[trigger] now[k]) is Foreign by {
            if k < before.len() {
                assert(now[k] == before[k]);
            }
        }
    }
}

/// Conflicts that are all foreign add nothing to the count of the internal
/// collisions behind them.
proof fn lemma_reports_after(
    foreign: Seq<ConflictText>,
    internal: Seq<ConflictText>,
    target: PathText,
)
    requires
        forall|k: int| 0 <= k < foreign.len() ==> (#[trigger] foreign[k]) is Foreign,
    ensures
        internal_reports(foreign + internal, target) == internal_reports(internal, target),
    decreases internal.len(),
{
    if internal.len() == 0 {
        assert(foreign + internal =~= foreign);
        lemma_no_reports(foreign, target);
    } else {
        assert((foreign + internal).drop_last() =~= foreign + internal.drop_last());
        assert((foreign + internal).last() == internal.last());
        lemma_reports_after(foreign, internal.drop_last(), target);
    }
}

/// Foreign collisions count for nothing among the internal ones.
proof fn lemma_no_reports(foreign: Seq<ConflictText>, target: PathText)
    requires
        forall|k: int| 0 <= k < foreign.len() ==> (#[trigger] foreign[k]) is Foreign,
    ensures
        internal_reports(foreign, target) == 0,
    decreases foreign.len(),
{
    if foreign.len() > 0 {
        assert forall|k: int| 0 <= k < foreign.drop_last().len() implies (
        #[trigger] foreign.drop_last()[k]) is Foreign by {
            assert(foreign.drop_last()[k] == foreign[k]);
        }
        lemma_no_reports(foreign.drop_last(), target);
        assert(foreign[foreign.len() - 1] is Foreign);
    }
}

/// The foreign collisions depend on the existing files only as a set.
proof fn lemma_foreign_by_set(
    entries: Seq<RenameText>,
    existing: Seq<PathText>,
    other: Seq<PathText>,
    n: nat,
)
    requires
        forall|p: PathText| existing.contains(p) == other.contains(p),
    ensures
        foreign_conflicts(entries, existing, n) == foreign_conflicts(entries, other, n),
    decreases n,
{
    if n > 0 {
        lemma_foreign_by_set(entries, existing, other, (n - 1) as nat);
    }
}

/// What is reported depends on nothing but the mapping of the plan and the
/// set of the files that exist: neither the order in which the renames were
/// planned nor the order in which the existing files are listed matters.
pub proof fn conflicts_fixed_by_mapping(
    entries: Seq<RenameText>,
    existing: Seq<PathText>,
    other_entries: Seq<RenameText>,
    other_existing: Seq<PathText>,
)
    requires
        sorted_by_source(entries),
        sorted_by_source(other_entries),
        mapping(entries) == mapping(other_entries),
        forall|p: PathText| existing.contains(p) == other_existing.contains(p),
    ensures
        conflicts_of(entries, existing) == conflicts_of(other_entries, other_existing),
{
    lemma_entries_of_mapping(entries, other_entries);
    lemma_foreign_by_set(entries, existing, other_existing, entries.len());
}

fn is_first_with_target(entries: &Vec<Rename>, i: usize) -> (b: bool)
    requires
        i < entries.len(),
    ensures
        b == first_with_target(rename_texts(entries@), i as int),
{
    let ghost texts = rename_texts(entries@);
    let mut j: usize = 0;
    while j < i
        invariant
            j <= i < entries.len(),
            texts == rename_texts(entries@),
            forall|k: int| 0 <= k < j ==> (#[trigger] texts[k]).new_path != texts[i as int].new_path,
        decreases i - j,
    {
        if entries[j].new_path.same_as(&entries[i].new_path) {
            assert(texts[j as int].new_path == texts[i as int].new_path);
            return false;
        }
        j += 1;
    }
    true
}

fn is_among(paths: &Vec<FilePath>, path: &FilePath) -> (b: bool)
    ensures
        b == path_texts(paths@).contains(path@),
{
    let ghost texts = path_texts(paths@);
    let mut j: usize = 0;
    while j < paths.len()
        invariant
            j <= paths.len(),
            texts == path_texts(paths@),
            forall|k: int| 0 <= k < j ==> #[trigger] texts[k] != path@,
        decreases paths.len() - j,
    {
        if paths[j].same_as(path) {
            assert(texts[j as int] == path@);
            return true;
        }
        j += 1;
    }
    false
}

fn collect_sources(entries: &Vec<Rename>, target: &FilePath) -> (sources: Vec<FilePath>)
    ensures
        path_texts(sources@) == sources_of(rename_texts(entries@), target@, entries@.len()),
{
    let ghost texts = rename_texts(entries@);
    let mut sources: Vec<FilePath> = Vec::new();
    let mut j: usize = 0;
    while j < entries.len()
        invariant
            j <= entries.len(),
            texts == rename_texts(entries@),
            path_texts(sources@) == sources_of(texts, target@, j as nat),
        decreases entries.len() - j,
    {
        let ghost before = path_texts(sources@);
        if entries[j].new_path.same_as(target) {
            sources.push(entries[j].old_path.duplicate());
            assert(path_texts(sources@) =~= before.push(texts[j as int].old_path));
        }
        j += 1;
    }
    sources
}

/// Checks a plan against the files that exist. A target that exists and that
/// the plan does not itself move away is a foreign collision; a target that
/// two or more files map to is an internal collision, listed with all of
/// them. All collisions are collected, the foreign ones first, each target
/// once, in the order in which the plan comes to it. An empty result means
/// that the plan may be carried out.
pub fn detect_conflicts(plan: &RenamePlan, existing: &Vec<FilePath>) -> (conflicts: Vec<Conflict>)
    ensures
        conflict_texts(conflicts@) == conflicts_of(plan@, path_texts(existing@)),
{
    let entries = plan.entries();
    let ghost texts = rename_texts(entries@);
    let ghost there = path_texts(existing@);
    let mut conflicts: Vec<Conflict> = Vec::new();
    let mut i: usize = 0;
    while i < entries.len()
        invariant
            i <= entries.len(),
            texts == rename_texts(entries@),
            texts == plan@,
            there == path_texts(existing@),
            conflict_texts(conflicts@) == foreign_conflicts(texts, there, i as nat),
        decreases entries.len() - i,
    {
        let ghost before = conflict_texts(conflicts@);
        let target = &entries[i].new_path;
        assert(target@ == texts[i as int].new_path);
        if is_first_with_target(entries, i) && is_among(existing, target) && !plan.contains_source(
            target,
        ) {
            conflicts.push(Conflict::Foreign { target: target.duplicate() });
            assert(conflict_texts(conflicts@) =~= before.push(
                ConflictText::Foreign { target: target@ },
            ));
        }
        i += 1;
    }
    let ghost foreign = conflict_texts(conflicts@);
    let mut i: usize = 0;
    while i < entries.len()
        invariant
            i <= entries.len(),
            texts == rename_texts(entries@),
            conflict_texts(conflicts@) == foreign + internal_conflicts(texts, i as nat),
        decreases entries.len() - i,
    {
        let ghost before = conflict_texts(conflicts@);
        let target = &entries[i].new_path;
        assert(target@ == texts[i as int].new_path);
        if is_first_with_target(entries, i) {
            let sources = collect_sources(entries, target);
            if sources.len() >= 2 {
                let ghost listed = path_texts(sources@);
                conflicts.push(Conflict::Internal { target: target.duplicate(), sources });
                assert(conflict_texts(conflicts@) =~= before.push(
                    ConflictText::Internal { target: target@, sources: listed },
                ));
            }
        }
        i += 1;
    }
    conflicts
}

} // verus!
