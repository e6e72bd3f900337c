//! Trimming by character class, and small tools on `Vec<char>`.

use crate::chars::{char_is_digit, char_is_whitespace, is_digit, is_whitespace};
use vstd::prelude::*;

verus! {

/// A set of characters that can be trimmed off the ends of a text.
#[derive(Clone, Copy, Debug)]
pub enum CharClass {
    /// Unicode whitespace.
    Whitespace,
    /// The full stop.
    Dot,
    /// Everything but the full stop.
    NonDot,
    /// Everything but the ten ASCII digits.
    NonDigit,
}

impl CharClass {
    pub open spec fn has(self, c: char) -> bool {
        match self {
            CharClass::Whitespace => is_whitespace(c),
            CharClass::Dot => c == '.',
            CharClass::NonDot => c != '.',
            CharClass::NonDigit => !is_digit(c),
        }
    }

    pub(crate) fn contains(self, c: char) -> (b: bool)
        ensures
            b == self.has(c),
    {
        match self {
            CharClass::Whitespace => char_is_whitespace(c),
            CharClass::Dot => c == '.',
            CharClass::NonDot => c != '.',
            CharClass::NonDigit => !char_is_digit(c),
        }
    }
}

/// How many characters of `class` stand at the start of `s` without a break.
pub open spec fn leading(s: Seq<char>, class: CharClass) -> nat
    decreases s.len(),
{
    if s.len() > 0 && class.has(s[0]) {
        1 + leading(s.drop_first(), class)
    } else {
        0
    }
}

/// How many characters of `class` stand at the end of `s` without a break.
pub open spec fn trailing(s: Seq<char>, class: CharClass) -> nat
    decreases s.len(),
{
    if s.len() > 0 && class.has(s.last()) {
        1 + trailing(s.drop_last(), class)
    } else {
        0
    }
}

/// `s` without the characters of `class` at its start.
pub open spec fn trim_start(s: Seq<char>, class: CharClass) -> Seq<char> {
    s.skip(leading(s, class) as int)
}

/// `s` without the characters of `class` at its end.
pub open spec fn trim_end(s: Seq<char>, class: CharClass) -> Seq<char> {
    s.take(s.len() - trailing(s, class))
}

/// `s` without the characters of `class` at either end.
pub open spec fn trim(s: Seq<char>, class: CharClass) -> Seq<char> {
    trim_end(trim_start(s, class), class)
}

/// `leading` is the index of the first character outside the class.
pub proof fn lemma_leading(s: Seq<char>, class: CharClass)
    ensures
        leading(s, class) <= s.len(),
        forall|i: int| 0 <= i < leading(s, class) ==> class.has(#[trigger] s[i]),
        leading(s, class) < s.len() ==> !class.has(s[leading(s, class) as int]),
    decreases s.len(),
{
    if s.len() > 0 && class.has(s[0]) {
        let rest = s.drop_first();
        lemma_leading(rest, class);
        assert forall|i: int| 0 <= i < leading(s, class) implies class.has(#[trigger] s[i]) by {
            if i > 0 {
                assert(s[i] == rest[i - 1]);
            }
        }
        if leading(s, class) < s.len() {
            assert(s[leading(s, class) as int] == rest[leading(rest, class) as int]);
        }
    }
}

/// A run of class characters that ends before a character outside the class,
/// or at the end of the text, is the whole leading run.
pub proof fn lemma_leading_is(s: Seq<char>, class: CharClass, k: int)
    requires
        0 <= k <= s.len(),
        forall|i: int| 0 <= i < k ==> class.has(#[trigger] s[i]),
        k < s.len() ==> !class.has(s[k]),
    ensures
        leading(s, class) == k,
    decreases s.len(),
{
    if k > 0 {
        let rest = s.drop_first();
        assert(class.has(s[0]));
        assert forall|i: int| 0 <= i < k - 1 implies class.has(#[trigger] rest[i]) by {
            assert(rest[i] == s[i + 1]);
        }
        lemma_leading_is(rest, class, k - 1);
    }
}

/// `trailing` counts back to the last character outside the class.
pub proof fn lemma_trailing(s: Seq<char>, class: CharClass)
    ensures
        trailing(s, class) <= s.len(),
        forall|i: int| s.len() - trailing(s, class) <= i < s.len() ==> class.has(#[trigger] s[i]),
        trailing(s, class) < s.len() ==> !class.has(s[s.len() - trailing(s, class) - 1]),
    decreases s.len(),
{
    if s.len() > 0 && class.has(s.last()) {
        let rest = s.drop_last();
        lemma_trailing(rest, class);
        assert forall|i: int| s.len() - trailing(s, class) <= i < s.len() implies class.has(
            #[trigger] s[i],
        ) by {
            if i < s.len() - 1 {
                assert(s[i] == rest[i]);
            }
        }
        if trailing(s, class) < s.len() {
            assert(s[s.len() - trailing(s, class) - 1] == rest[rest.len() - trailing(rest, class)
                - 1]);
        }
    }
}

/// A run of class characters that starts after a character outside the class,
/// or at the start of the text, is the whole trailing run.
pub proof fn lemma_trailing_is(s: Seq<char>, class: CharClass, k: int)
    requires
        0 <= k <= s.len(),
        forall|i: int| s.len() - k <= i < s.len() ==> class.has(#[trigger] s[i]),
        k < s.len() ==> !class.has(s[s.len() - k - 1]),
    ensures
        trailing(s, class) == k,
    decreases s.len(),
{
    if k > 0 {
        let rest = s.drop_last();
        assert(class.has(s[s.len() - 1]));
        assert forall|i: int| rest.len() - (k - 1) <= i < rest.len() implies class.has(
            #[trigger] rest[i],
        ) by {
            assert(rest[i] == s[i]);
        }
        if k - 1 < rest.len() {
            assert(rest[rest.len() - (k - 1) - 1] == s[s.len() - k - 1]);
        }
        lemma_trailing_is(rest, class, k - 1);
    }
}

/// A text that neither starts nor ends with a character of the class is its
/// own trimmed form.
pub proof fn lemma_trim_fixed(s: Seq<char>, class: CharClass)
    requires
        s.len() > 0 ==> !class.has(s[0]) && !class.has(s.last()),
    ensures
        trim(s, class) == s,
{
    assert(trim_start(s, class) =~= s);
    assert(trim_end(s, class) =~= s);
}

/// A trimmed text neither starts nor ends with a character of the class.
pub proof fn lemma_trim_ends(s: Seq<char>, class: CharClass)
    ensures
        trim(s, class).len() > 0 ==> !class.has(trim(s, class)[0]) && !class.has(
            trim(s, class).last(),
        ),
        trim(s, class).len() <= s.len(),
{
    lemma_leading(s, class);
    let t = trim_start(s, class);
    lemma_trailing(t, class);
    let u = trim(s, class);
    if u.len() > 0 {
        assert(u[0] == t[0]);
        assert(t[0] == s[leading(s, class) as int]);
        assert(u.last() == t[t.len() - trailing(t, class) - 1]);
    }
}

/// The characters of `v` from `from` up to `to`.
pub(crate) fn slice(v: &Vec<char>, from: usize, to: usize) -> (r: Vec<char>)
    requires
        from <= to <= v.len(),
    ensures
        r@ == v@.subrange(from as int, to as int),
{
    let mut r: Vec<char> = Vec::new();
    let mut i: usize = from;
    while i < to
        invariant
            from <= i <= to <= v.len(),
            r@ == v@.subrange(from as int, i as int),
        decreases to - i,
    {
        r.push(v[i]);
        i += 1;
        assert(r@ =~= v@.subrange(from as int, i as int));
    }
    r
}

/// Appends the characters of `tail` to `v`.
pub(crate) fn extend(v: &mut Vec<char>, tail: &Vec<char>)
    ensures
        final(v)@ == old(v)@ + tail@,
{
    let mut i: usize = 0;
    while i < tail.len()
        invariant
            i <= tail.len(),
            v@ == old(v)@ + tail@.take(i as int),
        decreases tail.len() - i,
    {
        v.push(tail[i]);
        i += 1;
        assert(v@ =~= old(v)@ + tail@.take(i as int));
    }
    assert(tail@.take(tail.len() as int) =~= tail@);
}

/// Tells whether two texts hold the same characters.
pub(crate) fn same(a: &Vec<char>, b: &Vec<char>) -> (r: bool)
    ensures
        r == (a@ == b@),
{
    if a.len() != b.len() {
        return false;
    }
    let mut i: usize = 0;
    while i < a.len()
        invariant
            i <= a.len(),
            a.len() == b.len(),
            a@.take(i as int) == b@.take(i as int),
        decreases a.len() - i,
    {
        if a[i] != b[i] {
            return false;
        }
        i += 1;
        assert(a@.take(i as int) =~= a@.take(i - 1).push(a@[i - 1]));
        assert(b@.take(i as int) =~= b@.take(i - 1).push(b@[i - 1]));
    }
    assert(a@.take(a.len() as int) =~= a@);
    assert(b@.take(b.len() as int) =~= b@);
    true
}

/// The length of the leading run of `class` in `v`.
pub(crate) fn leading_len(v: &Vec<char>, class: CharClass) -> (k: usize)
    ensures
        k == leading(v@, class),
{
    let mut k: usize = 0;
    while k < v.len() && class.contains(v[k])
        invariant
            k <= v.len(),
            forall|i: int| 0 <= i < k ==> class.has(#[trigger] v@[i]),
        decreases v.len() - k,
    {
        k += 1;
    }
    proof {
        lemma_leading_is(v@, class, k as int);
    }
    k
}

/// The length of the trailing run of `class` in the first `len` characters
/// of `v`.
pub(crate) fn trailing_len(v: &Vec<char>, class: CharClass) -> (k: usize)
    ensures
        k == trailing(v@, class),
{
    let n: usize = v.len();
    let mut k: usize = 0;
    while k < n && class.contains(v[n - k - 1])
        invariant
            k <= n,
            n == v.len(),
            forall|i: int| n - k <= i < n ==> class.has(#[trigger] v@[i]),
        decreases n - k,
    {
        k += 1;
    }
    proof {
        lemma_trailing_is(v@, class, k as int);
    }
    k
}

/// `v` without the characters of `class` at its start.
pub(crate) fn trimmed_start(v: &Vec<char>, class: CharClass) -> (r: Vec<char>)
    ensures
        r@ == trim_start(v@, class),
{
    let k: usize = leading_len(v, class);
    proof {
        lemma_leading(v@, class);
    }
    slice(v, k, v.len())
}

/// `v` without the characters of `class` at its end.
pub(crate) fn trimmed_end(v: &Vec<char>, class: CharClass) -> (r: Vec<char>)
    ensures
        r@ == trim_end(v@, class),
{
    let k: usize = trailing_len(v, class);
    proof {
        lemma_trailing(v@, class);
    }
    slice(v, 0, v.len() - k)
}

/// `v` without the characters of `class` at either end.
pub(crate) fn trimmed(v: &Vec<char>, class: CharClass) -> (r: Vec<char>)
    ensures
        r@ == trim(v@, class),
{
    let t = trimmed_start(v, class);
    trimmed_end(&t, class)
}

} // verus!
