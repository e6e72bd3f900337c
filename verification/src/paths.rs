//! A file's place: the directory it lies in and its name there.
//!
//! The crate never takes a path apart and never builds one with separators:
//! a rename keeps the directory text as it is and replaces the name.

use crate::chars::chars_of;
use crate::text::same;
use vstd::prelude::*;

verus! {

/// Where a file lies.
#[derive(Clone, Debug, PartialEq, Eq)]
pub struct FilePath {
    /// The directory, as the caller writes it.
    pub directory: String,
    /// The file's name in that directory.
    pub name: String,
}

/// The texts of a `FilePath`.
pub struct PathText {
    pub directory: Seq<char>,
    pub name: Seq<char>,
}

impl View for FilePath {
    type V = PathText;

    open spec fn view(&self) -> PathText {
        PathText { directory: self.directory@, name: self.name@ }
    }
}

/// Tells whether two strings hold the same text.
pub(crate) fn same_text(a: &String, b: &String) -> (r: bool)
    ensures
        r == (a@ == b@),
{
    let x = chars_of(a.as_str());
    let y = chars_of(b.as_str());
    same(&x, &y)
}

impl FilePath {
    /// The place of the file `name` in `directory`.
    pub fn new(directory: &str, name: &str) -> (p: FilePath)
        ensures
            p@ == (PathText { directory: directory@, name: name@ }),
    {
        FilePath { directory: directory.to_owned(), name: name.to_owned() }
    }

    /// A copy of this place.
    pub fn duplicate(&self) -> (p: FilePath)
        ensures
            p@ == self@,
    {
        FilePath { directory: self.directory.clone(), name: self.name.clone() }
    }

    /// Tells whether this is the place `other`: the same directory text and
    /// the same name.
    pub fn same_as(&self, other: &FilePath) -> (r: bool)
        ensures
            r == (self@ == other@),
    {
        same_text(&self.directory, &other.directory) && same_text(&self.name, &other.name)
    }

    /// The place of a file called `name` in the same directory.
    pub fn sibling(&self, name: &str) -> (p: FilePath)
        ensures
            p@ == (PathText { directory: self@.directory, name: name@ }),
    {
        FilePath { directory: self.directory.clone(), name: name.to_owned() }
    }

    /// Where this place stands against `other` in the order of places.
    pub fn order(&self, other: &FilePath) -> (o: Order)
        ensures
            o == order_of(self@, other@),
    {
        let a = chars_of(self.directory.as_str());
        let b = chars_of(other.directory.as_str());
        match order_texts(&a, &b) {
            Order::Same => {
                let c = chars_of(self.name.as_str());
                let d = chars_of(other.name.as_str());
                let o = order_texts(&c, &d);
                proof {
                    lemma_text_order(self@.directory, other@.directory);
                    lemma_text_order(self@.name, other@.name);
                }
                o
            },
            o => {
                proof {
                    lemma_text_order(self@.directory, other@.directory);
                }
                o
            },
        }
    }
}

/// How one value stands against another in a total order.
#[derive(Clone, Copy, Debug, PartialEq, Eq, Structural)]
pub enum Order {
    Before,
    Same,
    After,
}

/// The text `a` comes before the text `b`: at the first place where they
/// differ `a` has the lower character, or `a` ends there and `b` goes on.
pub open spec fn text_before(a: Seq<char>, b: Seq<char>) -> bool
    decreases a.len(),
{
    if b.len() == 0 {
        false
    } else if a.len() == 0 {
        true
    } else if a[0] != b[0] {
        a[0] < b[0]
    } else {
        text_before(a.drop_first(), b.drop_first())
    }
}

impl PathText {
    /// This place comes before `other`: by directory, then by name.
    pub open spec fn before(self, other: PathText) -> bool {
        text_before(self.directory, other.directory) || (self.directory == other.directory
            && text_before(self.name, other.name))
    }
}

/// Where `a` stands against `b`.
pub open spec fn order_of(a: PathText, b: PathText) -> Order {
    if a.before(b) {
        Order::Before
    } else if a == b {
        Order::Same
    } else {
        Order::After
    }
}

/// Of two texts exactly one of three holds: the first comes before the
/// second, they are the same, or the second comes before the first.
pub proof fn lemma_text_order(a: Seq<char>, b: Seq<char>)
    ensures
        text_before(a, b) || a == b || text_before(b, a),
        !(text_before(a, b) && a == b),
        !(text_before(b, a) && a == b),
        !(text_before(a, b) && text_before(b, a)),
    decreases a.len(),
{
    if a.len() > 0 && b.len() > 0 {
        lemma_text_order(a.drop_first(), b.drop_first());
        if a[0] == b[0] && a.drop_first() == b.drop_first() {
            assert(a =~= seq![a[0]] + a.drop_first());
            assert(b =~= seq![b[0]] + b.drop_first());
        }
    } else if a.len() == 0 && b.len() == 0 {
        assert(a =~= b);
    }
}

/// The order of texts is transitive.
pub proof fn lemma_text_before_transitive(a: Seq<char>, b: Seq<char>, c: Seq<char>)
    requires
        text_before(a, b),
        text_before(b, c),
    ensures
        text_before(a, c),
    decreases a.len(),
{
    if a.len() > 0 && b.len() > 0 && c.len() > 0 {
        if a[0] == b[0] && b[0] == c[0] {
            lemma_text_before_transitive(a.drop_first(), b.drop_first(), c.drop_first());
        }
    }
}

/// Of two places exactly one of three holds: the first comes before the
/// second, they are the same, or the second comes before the first.
pub proof fn lemma_path_order(a: PathText, b: PathText)
    ensures
        a.before(b) || a == b || b.before(a),
        !(a.before(b) && a == b),
        !(b.before(a) && a == b),
        !(a.before(b) && b.before(a)),
{
    lemma_text_order(a.directory, b.directory);
    lemma_text_order(a.name, b.name);
}

/// The order of places is transitive.
pub proof fn lemma_path_before_transitive(a: PathText, b: PathText, c: PathText)
    requires
        a.before(b),
        b.before(c),
    ensures
        a.before(c),
{
    lemma_text_order(a.directory, b.directory);
    lemma_text_order(b.directory, c.directory);
    lemma_text_order(a.directory, c.directory);
    if text_before(a.directory, b.directory) && text_before(b.directory, c.directory) {
        lemma_text_before_transitive(a.directory, b.directory, c.directory);
    } else if a.directory == b.directory && b.directory == c.directory {
        lemma_text_before_transitive(a.name, b.name, c.name);
    }
}

/// Texts that agree on their first `k` characters stand as their rests do.
proof fn lemma_text_before_skip(a: Seq<char>, b: Seq<char>, k: int)
    requires
        0 <= k <= a.len(),
        k <= b.len(),
        a.take(k) == b.take(k),
    ensures
        text_before(a, b) == text_before(a.skip(k), b.skip(k)),
    decreases k,
{
    if k == 0 {
        assert(a.skip(0) =~= a);
        assert(b.skip(0) =~= b);
    } else {
        assert(a[0] == a.take(k)[0]);
        assert(b[0] == b.take(k)[0]);
        assert(a.drop_first().take(k - 1) =~= a.take(k).drop_first());
        assert(b.drop_first().take(k - 1) =~= b.take(k).drop_first());
        lemma_text_before_skip(a.drop_first(), b.drop_first(), k - 1);
        assert(a.drop_first().skip(k - 1) =~= a.skip(k));
        assert(b.drop_first().skip(k - 1) =~= b.skip(k));
    }
}

/// Where the text `a` stands against the text `b`.
fn order_texts(a: &Vec<char>, b: &Vec<char>) -> (o: Order)
    ensures
        o == Order::Before <==> text_before(a@, b@),
        o == Order::Same <==> a@ == b@,
        o == Order::After <==> text_before(b@, a@),
{
    let mut i: usize = 0;
    while i < a.len() && i < b.len()
        invariant
            i <= a.len(),
            i <= b.len(),
            a@.take(i as int) == b@.take(i as int),
        decreases a.len() - i,
    {
        if a[i] != b[i] {
            proof {
                lemma_text_before_skip(a@, b@, i as int);
                lemma_text_before_skip(b@, a@, i as int);
                lemma_text_order(a@, b@);
            }
            if a[i] < b[i] {
                return Order::Before;
            } else {
                return Order::After;
            }
        }
        i += 1;
        assert(a@.take(i as int) =~= a@.take(i - 1).push(a@[i - 1]));
        assert(b@.take(i as int) =~= b@.take(i - 1).push(b@[i - 1]));
    }
    proof {
        lemma_text_before_skip(a@, b@, i as int);
        lemma_text_before_skip(b@, a@, i as int);
        lemma_text_order(a@, b@);
        if a.len() == b.len() {
            assert(a@.take(i as int) =~= a@);
            assert(b@.take(i as int) =~= b@);
        }
    }
    if a.len() < b.len() {
        Order::Before
    } else if a.len() == b.len() {
        Order::Same
    } else {
        Order::After
    }
}

} // verus!
