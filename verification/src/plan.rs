//! The rename plan: which file gets which new place, one entry for each file
//! to be renamed, kept in the order of the files' places.

use crate::paths::{lemma_path_before_transitive, lemma_path_order, FilePath, Order, PathText};
use vstd::prelude::*;

verus! {

/// One planned rename.
#[derive(Clone, Debug, PartialEq, Eq)]
pub struct Rename {
    /// Where the file lies.
    pub old_path: FilePath,
    /// Where it is to lie.
    pub new_path: FilePath,
}

/// The texts of a `Rename`.
pub struct RenameText {
    pub old_path: PathText,
    pub new_path: PathText,
}

impl View for Rename {
    type V = RenameText;

    open spec fn view(&self) -> RenameText {
        RenameText { old_path: self.old_path@, new_path: self.new_path@ }
    }
}

/// The texts of the renames.
pub open spec fn rename_texts(entries: Seq<Rename>) -> Seq<RenameText> {
    Seq::new(entries.len(), |i: int| entries[i]@)
}

/// The entries stand in the order of their old places, each old place once.
pub open spec fn sorted_by_source(entries: Seq<RenameText>) -> bool {
    forall|i: int, j: int|
        0 <= i < j < entries.len() ==> (#[trigger] entries[i]).old_path.before(
            (#[trigger] entries[j]).old_path,
        )
}

/// The entries as a mapping from old place to new place. Where an old place
/// stands in several entries, the last one counts.
pub open spec fn mapping(entries: Seq<RenameText>) -> Map<PathText, PathText>
    decreases entries.len(),
{
    if entries.len() == 0 {
        Map::empty()
    } else {
        mapping(entries.drop_last()).insert(entries.last().old_path, entries.last().new_path)
    }
}

/// Some entry renames the file at `path`.
pub open spec fn has_source(entries: Seq<RenameText>, path: PathText) -> bool {
    exists|i: int| 0 <= i < entries.len() && (#[trigger] entries[i]).old_path == path
}

/// The mapping of entries in order holds exactly the entries.
pub proof fn lemma_mapping(entries: Seq<RenameText>)
    requires
        sorted_by_source(entries),
    ensures
        forall|k: PathText| #[trigger] mapping(entries).dom().contains(k) <==> has_source(entries, k),
        forall|i: int|
            0 <= i < entries.len() ==> mapping(entries)[(#[trigger] entries[i]).old_path]
                == entries[i].new_path,
        mapping(entries).dom().finite(),
    decreases entries.len(),
{
    if entries.len() > 0 {
        let before = entries.drop_last();
        let last = entries.last();
        assert forall|i: int, j: int| 0 <= i < j < before.len() implies (#[trigger] before[i]).old_path.before(
            (#[trigger] before[j]).old_path,
        ) by {
            assert(before[i] == entries[i]);
            assert(before[j] == entries[j]);
        }
        lemma_mapping(before);
        assert forall|k: PathText| #[trigger]
            mapping(entries).dom().contains(k) <==> has_source(entries, k) by {
            if has_source(entries, k) {
                let i = choose|i: int| 0 <= i < entries.len() && (#[trigger] entries[i]).old_path == k;
                if i < before.len() {
                    assert(before[i].old_path == k);
                    assert(has_source(before, k));
                }
            }
            if mapping(entries).dom().contains(k) {
                if k == last.old_path {
                    assert(entries[entries.len() - 1].old_path == k);
                } else {
                    assert(has_source(before, k));
                    let i = choose|i: int| 0 <= i < before.len() && (#[trigger] before[i]).old_path == k;
                    assert(entries[i].old_path == k);
                }
            }
        }
        assert forall|i: int| 0 <= i < entries.len() implies mapping(entries)[(
        #[trigger] entries[i]).old_path] == entries[i].new_path by {
            if i < before.len() {
                assert(before[i] == entries[i]);
                assert(entries[i].old_path.before(entries[entries.len() - 1].old_path));
                lemma_path_order(entries[i].old_path, last.old_path);
            }
        }
    }
}

/// Entries in order are fixed by their mapping: two plans that map the same
/// files to the same places list the same entries in the same order.
pub proof fn lemma_entries_of_mapping(a: Seq<RenameText>, b: Seq<RenameText>)
    requires
        sorted_by_source(a),
        sorted_by_source(b),
        mapping(a) == mapping(b),
    ensures
        a == b,
    decreases a.len(),
{
    lemma_mapping(a);
    lemma_mapping(b);
    if a.len() == 0 {
        if b.len() > 0 {
            assert(has_source(b, b[0].old_path));
            assert(mapping(a).dom().contains(b[0].old_path));
        }
        assert(a =~= b);
    } else if b.len() == 0 {
        assert(has_source(a, a[0].old_path));
        assert(mapping(b).dom().contains(a[0].old_path));
    } else {
        // the last entries hold the greatest old place of either plan
        let x = a.last();
        let y = b.last();
        assert(has_source(a, x.old_path));
        assert(has_source(b, y.old_path));
        assert(mapping(a).dom().contains(x.old_path));
        assert(mapping(b).dom().contains(y.old_path));
        assert(has_source(b, x.old_path));
        assert(has_source(a, y.old_path));
        let i = choose|i: int| 0 <= i < b.len() && (#[trigger] b[i]).old_path == x.old_path;
        let j = choose|j: int| 0 <= j < a.len() && (#[trigger] a[j]).old_path == y.old_path;
        lemma_path_order(x.old_path, y.old_path);
        if i < b.len() - 1 {
            assert(b[i].old_path.before(b[b.len() - 1].old_path));
        }
        if j < a.len() - 1 {
            assert(a[j].old_path.before(a[a.len() - 1].old_path));
        }
        assert(x.old_path == y.old_path);
        assert(mapping(a)[a[a.len() - 1].old_path] == x.new_path);
        assert(mapping(b)[b[b.len() - 1].old_path] == y.new_path);
        assert(x == y);
        let a0 = a.drop_last();
        let b0 = b.drop_last();
        assert forall|i: int, j: int| 0 <= i < j < a0.len() implies (#[trigger] a0[i]).old_path.before(
            (#[trigger] a0[j]).old_path,
        ) by {
            assert(a0[i] == a[i] && a0[j] == a[j]);
        }
        assert forall|i: int, j: int| 0 <= i < j < b0.len() implies (#[trigger] b0[i]).old_path.before(
            (#[trigger] b0[j]).old_path,
        ) by {
            assert(b0[i] == b[i] && b0[j] == b[j]);
        }
        lemma_mapping(a0);
        lemma_mapping(b0);
        assert(mapping(a0) =~= mapping(b0)) by {
            assert forall|k: PathText| mapping(a0).dom().contains(k) <==> mapping(b0).dom().contains(
                k,
            ) by {
                lemma_source_of_front(a, k);
                lemma_source_of_front(b, k);
                assert(mapping(a).dom().contains(k) == has_source(a, k));
                assert(mapping(b).dom().contains(k) == has_source(b, k));
            }
            assert forall|k: PathText| #[trigger]
                mapping(a0).dom().contains(k) implies mapping(a0)[k] == mapping(b0)[k] by {
                lemma_source_of_front(a, k);
                lemma_source_of_front(b, k);
                assert(k != x.old_path);
                assert(mapping(a)[k] == mapping(a0)[k]);
                assert(mapping(b)[k] == mapping(b0)[k]);
            }
        }
        lemma_entries_of_mapping(a0, b0);
        assert(a =~= a0.push(x));
        assert(b =~= b0.push(y));
    }
}

/// In entries in order, the sources of all but the last entry are the
/// sources other than the last one.
proof fn lemma_source_of_front(a: Seq<RenameText>, k: PathText)
    requires
        sorted_by_source(a),
        a.len() > 0,
    ensures
        has_source(a.drop_last(), k) <==> has_source(a, k) && k != a.last().old_path,
{
    let a0 = a.drop_last();
    if has_source(a0, k) {
        let i = choose|i: int| 0 <= i < a0.len() && (#[trigger] a0[i]).old_path == k;
        assert(a[i].old_path == k);
        assert(a[i].old_path.before(a[a.len() - 1].old_path));
        lemma_path_order(k, a.last().old_path);
    }
    if has_source(a, k) && k != a.last().old_path {
        let i = choose|i: int| 0 <= i < a.len() && (#[trigger] a[i]).old_path == k;
        assert(a0[i].old_path == k);
    }
}

/// A set of renames, at most one for each file, in the order of the files'
/// places.
#[derive(Debug, PartialEq, Eq)]
pub struct RenamePlan {
    entries: Vec<Rename>,
}

impl View for RenamePlan {
    type V = Seq<RenameText>;

    closed spec fn view(&self) -> Seq<RenameText> {
        rename_texts(self.entries@)
    }
}

impl RenamePlan {
    #[verifier::type_invariant]
    spec fn in_order(&self) -> bool {
        sorted_by_source(rename_texts(self.entries@))
    }

    /// The plan without any rename.
    pub fn new() -> (plan: RenamePlan)
        ensures
            plan@ == Seq::<RenameText>::empty(),
    {
        let plan = RenamePlan { entries: Vec::new() };
        assert(plan@ =~= Seq::<RenameText>::empty());
        plan
    }

    /// The renames, in the order of the old places.
    pub fn entries(&self) -> (entries: &Vec<Rename>)
        ensures
            rename_texts(entries@) == self@,
            sorted_by_source(self@),
    {
        proof {
            use_type_invariant(self);
        }
        &self.entries
    }

    /// How many files the plan renames.
    pub fn len(&self) -> (n: usize)
        ensures
            n == self@.len(),
    {
        self.entries.len()
    }

    /// Tells whether the plan renames no file.
    pub fn is_empty(&self) -> (b: bool)
        ensures
            b == (self@.len() == 0),
    {
        self.entries.len() == 0
    }

    /// Tells whether the plan renames the file at `path`.
    pub fn contains_source(&self, path: &FilePath) -> (b: bool)
        ensures
            b == has_source(self@, path@),
            b == mapping(self@).dom().contains(path@),
    {
        proof {
            use_type_invariant(self);
            lemma_mapping(self@);
        }
        let mut i: usize = 0;
        while i < self.entries.len()
            invariant
                i <= self.entries.len(),
                forall|j: int| 0 <= j < i ==> (#[trigger] self@[j]).old_path != path@,
            decreases self.entries.len() - i,
        {
            if self.entries[i].old_path.same_as(path) {
                proof {
                    use_type_invariant(self);
                    lemma_mapping(self@);
                    assert(self@[i as int].old_path == path@);
                    assert(mapping(self@).dom().contains(path@) == has_source(self@, path@));
                }
                return true;
            }
            i += 1;
        }
        assert(mapping(self@).dom().contains(path@) == has_source(self@, path@));
        false
    }

    /// Plans to move the file at `old_path` to `new_path`. A rename planned
    /// before for the same file is replaced.
    pub fn insert(&mut self, old_path: FilePath, new_path: FilePath)
        ensures
            mapping(final(self)@) == mapping(old(self)@).insert(old_path@, new_path@),
            sorted_by_source(final(self)@),
    {
        proof {
            use_type_invariant(&*self);
        }
        let mut entries: Vec<Rename> = Vec::new();
        std::mem::swap(&mut entries, &mut self.entries);
        put(&mut entries, old_path, new_path);
        self.entries = entries;
    }
}

/// Puts a rename at its place among `entries`, or replaces the one for the
/// same file.
fn put(entries: &mut Vec<Rename>, old_path: FilePath, new_path: FilePath)
    requires
        sorted_by_source(rename_texts(old(entries)@)),
    ensures
        sorted_by_source(rename_texts(final(entries)@)),
        mapping(rename_texts(final(entries)@)) == mapping(rename_texts(old(entries)@)).insert(
            old_path@,
            new_path@,
        ),
{
    let ghost before = rename_texts(entries@);
    let ghost entry = RenameText { old_path: old_path@, new_path: new_path@ };
    let mut i: usize = 0;
    while i < entries.len()
        invariant
            i <= entries.len(),
            rename_texts(entries@) == before,
            rename_texts(old(entries)@) == before,
            entry == (RenameText { old_path: old_path@, new_path: new_path@ }),
            sorted_by_source(before),
            forall|j: int| 0 <= j < i ==> (#[trigger] before[j]).old_path.before(old_path@),
        decreases entries.len() - i,
    {
        assert(before[i as int] == entries@[i as int]@);
        match entries[i].old_path.order(&old_path) {
            Order::Before => {},
            Order::Same => {
                entries.set(i, Rename { old_path, new_path });
                proof {
                    assert(rename_texts(entries@) =~= before.update(i as int, entry));
                    lemma_update(before, i as int, entry);
                }
                return ;
            },
            Order::After => {
                entries.insert(i, Rename { old_path, new_path });
                proof {
                    assert(rename_texts(entries@) =~= before.insert(i as int, entry));
                    lemma_path_order(before[i as int].old_path, entry.old_path);
                    lemma_insert(before, i as int, entry);
                }
                return ;
            },
        }
        i += 1;
    }
    entries.push(Rename { old_path, new_path });
    proof {
        assert(rename_texts(entries@) =~= before.insert(i as int, entry));
        lemma_insert(before, i as int, entry);
    }
}

/// Replacing the new place of an entry keeps the order and sets the mapping
/// at its old place.
proof fn lemma_update(before: Seq<RenameText>, i: int, entry: RenameText)
    requires
        sorted_by_source(before),
        0 <= i < before.len(),
        before[i].old_path == entry.old_path,
    ensures
        sorted_by_source(before.update(i, entry)),
        mapping(before.update(i, entry)) == mapping(before).insert(entry.old_path, entry.new_path),
{
    let after = before.update(i, entry);
    assert forall|a: int, b: int| 0 <= a < b < after.len() implies (#[trigger] after[a]).old_path.before(
        (#[trigger] after[b]).old_path,
    ) by {
        assert(before[a].old_path.before(before[b].old_path));
    }
    lemma_mapping(before);
    lemma_mapping(after);
    let want = mapping(before).insert(entry.old_path, entry.new_path);
    assert forall|k: PathText| mapping(after).dom().contains(k) <==> want.dom().contains(k) by {
        if has_source(after, k) {
            let j = choose|j: int| 0 <= j < after.len() && (#[trigger] after[j]).old_path == k;
            assert(before[j].old_path == k);
        }
        if has_source(before, k) {
            let j = choose|j: int| 0 <= j < before.len() && (#[trigger] before[j]).old_path == k;
            assert(after[j].old_path == k);
        }
        if k == entry.old_path {
            assert(after[i].old_path == k);
        }
    }
    assert forall|k: PathText| #[trigger] mapping(after).dom().contains(k) implies mapping(after)[k]
        == want[k] by {
        let j = choose|j: int| 0 <= j < after.len() && (#[trigger] after[j]).old_path == k;
        assert(mapping(after)[after[j].old_path] == after[j].new_path);
        if j != i {
            assert(before[j].old_path == k);
            assert(mapping(before)[before[j].old_path] == before[j].new_path);
            if j < i {
                assert(before[j].old_path.before(before[i].old_path));
            } else {
                assert(before[i].old_path.before(before[j].old_path));
            }
            lemma_path_order(k, entry.old_path);
        }
    }
    assert(mapping(after) =~= want);
}

/// Putting an entry at its place in the order keeps the order and adds it to
/// the mapping.
proof fn lemma_insert(before: Seq<RenameText>, i: int, entry: RenameText)
    requires
        sorted_by_source(before),
        0 <= i <= before.len(),
        forall|j: int| 0 <= j < i ==> (#[trigger] before[j]).old_path.before(entry.old_path),
        i < before.len() ==> entry.old_path.before(before[i].old_path),
    ensures
        sorted_by_source(before.insert(i, entry)),
        mapping(before.insert(i, entry)) == mapping(before).insert(entry.old_path, entry.new_path),
{
    let after = before.insert(i, entry);
    assert forall|a: int, b: int| 0 <= a < b < after.len() implies (#[trigger] after[a]).old_path.before(
        (#[trigger] after[b]).old_path,
    ) by {
        if b < i {
            assert(before[a].old_path.before(before[b].old_path));
        } else if b == i {
            assert(before[a].old_path.before(entry.old_path));
        } else if a == i {
            if b - 1 > i {
                assert(before[i].old_path.before(before[b - 1].old_path));
                lemma_path_before_transitive(
                    entry.old_path,
                    before[i].old_path,
                    before[b - 1].old_path,
                );
            }
        } else if a < i {
            if i < b - 1 {
                assert(before[a].old_path.before(before[b - 1].old_path));
            } else {
                assert(before[a].old_path.before(before[b - 1].old_path));
            }
        } else {
            assert(before[a - 1].old_path.before(before[b - 1].old_path));
        }
    }
    lemma_mapping(before);
    lemma_mapping(after);
    let want = mapping(before).insert(entry.old_path, entry.new_path);
    assert forall|k: PathText| mapping(after).dom().contains(k) <==> want.dom().contains(k) by {
        if has_source(after, k) {
            let j = choose|j: int| 0 <= j < after.len() && (#[trigger] after[j]).old_path == k;
            if j < i {
                assert(before[j].old_path == k);
            } else if j > i {
                assert(before[j - 1].old_path == k);
            }
        }
        if has_source(before, k) {
            let j = choose|j: int| 0 <= j < before.len() && (#[trigger] before[j]).old_path == k;
            if j < i {
                assert(after[j].old_path == k);
            } else {
                assert(after[j + 1].old_path == k);
            }
        }
        if k == entry.old_path {
            assert(after[i].old_path == k);
        }
    }
    assert forall|k: PathText| #[trigger] mapping(after).dom().contains(k) implies mapping(after)[k]
        == want[k] by {
        let j = choose|j: int| 0 <= j < after.len() && (#[trigger] after[j]).old_path == k;
        assert(mapping(after)[after[j].old_path] == after[j].new_path);
        if j < i {
            assert(before[j].old_path == k);
            assert(mapping(before)[before[j].old_path] == before[j].new_path);
            lemma_path_order(k, entry.old_path);
        } else if j > i {
            assert(before[j - 1].old_path == k);
            assert(mapping(before)[before[j - 1].old_path] == before[j - 1].new_path);
            assert(after[i].old_path.before(after[j].old_path));
            lemma_path_order(k, entry.old_path);
        }
    }
    assert(mapping(after) =~= want);
}

} // verus!
