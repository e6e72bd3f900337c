//! The segment normalizer: the dot-joined, lower-case form of a piece of a
//! file name.

use crate::chars::{chars_of, is_whitespace, lower_case, lowercase_of, string_of};
use crate::text::{
    lemma_leading, lemma_trailing, lemma_trim_ends, lemma_trim_fixed, leading, trailing, trim,
    trim_start, trimmed, CharClass,
};
use vstd::prelude::*;

verus! {

/// `s` with every space replaced by a full stop.
pub open spec fn spaces_to_dots(s: Seq<char>) -> Seq<char> {
    Seq::new(
        s.len(),
        |i: int|
            if s[i] == ' ' {
                '.'
            } else {
                s[i]
            },
    )
}

/// `s` with every run of full stops cut down to a single one: a full stop
/// that follows a full stop is left out.
pub open spec fn collapse_dots(s: Seq<char>) -> Seq<char>
    decreases s.len(),
{
    if s.len() == 0 {
        s
    } else if s.len() >= 2 && s[s.len() - 1] == '.' && s[s.len() - 2] == '.' {
        collapse_dots(s.drop_last())
    } else {
        collapse_dots(s.drop_last()).push(s.last())
    }
}

/// `s` without the full stops at its ends, unless `s` is a lone full stop.
pub open spec fn strip_edge_dots(s: Seq<char>) -> Seq<char> {
    if s == seq!['.'] {
        s
    } else {
        trim(s, CharClass::Dot)
    }
}

/// The dot-joined form of a segment, case kept: whitespace trimmed off both
/// ends, spaces turned into full stops, runs of full stops collapsed, and the
/// full stops at the ends stripped (a lone full stop stays).
pub open spec fn dot_joined(s: Seq<char>) -> Seq<char> {
    strip_edge_dots(collapse_dots(spaces_to_dots(trim(s, CharClass::Whitespace))))
}

/// The normal form of a segment: its dot-joined form, lower-cased.
pub open spec fn normalized(s: Seq<char>) -> Seq<char> {
    lowercase_of(dot_joined(s))
}

/// No two full stops stand side by side in `s`.
pub open spec fn no_double_dot(s: Seq<char>) -> bool {
    forall|i: int| 0 < i < s.len() ==> !(s[i - 1] == '.' && #[trigger] s[i] == '.')
}

/// `s` begins or ends with whitespace.
pub open spec fn has_edge_whitespace(s: Seq<char>) -> bool {
    s.len() > 0 && (is_whitespace(s[0]) || is_whitespace(s.last()))
}

/// `s` has the shape of a dot-joined text: no space, no two full stops side
/// by side, and no full stop at an end unless it is a lone full stop.
pub open spec fn is_dot_joined(s: Seq<char>) -> bool {
    &&& forall|i: int| 0 <= i < s.len() ==> #[trigger] s[i] != ' '
    &&& no_double_dot(s)
    &&& s == seq!['.'] || s.len() == 0 || (s[0] != '.' && s.last() != '.')
}

/// Lower-casing `t` goes character by character and leaves full stops and
/// spaces where they are: the lower-case form is as long as `t`, and has a
/// full stop or a space exactly where `t` has one.
pub open spec fn lowercase_keeps_stops(t: Seq<char>) -> bool {
    &&& lowercase_of(t).len() == t.len()
    &&& forall|i: int|
        0 <= i < t.len() ==> ((#[trigger] lowercase_of(t)[i] == '.') == (t[i] == '.')) && ((
        lowercase_of(t)[i] == ' ') == (t[i] == ' '))
}

/// Collapsing keeps the last character, never lengthens, and leaves no two
/// full stops side by side.
pub proof fn lemma_collapse_dots(s: Seq<char>)
    ensures
        collapse_dots(s).len() <= s.len(),
        s.len() > 0 ==> collapse_dots(s).len() > 0 && collapse_dots(s).last() == s.last()
            && collapse_dots(s)[0] == s[0],
        no_double_dot(collapse_dots(s)),
    decreases s.len(),
{
    if s.len() > 0 {
        let rest = s.drop_last();
        lemma_collapse_dots(rest);
        if rest.len() > 0 {
            assert(rest.last() == s[s.len() - 2]);
            assert(rest[0] == s[0]);
        }
    }
}

/// Collapsing changes nothing where no two full stops stand side by side.
pub proof fn lemma_collapse_fixed(s: Seq<char>)
    requires
        no_double_dot(s),
    ensures
        collapse_dots(s) == s,
    decreases s.len(),
{
    if s.len() > 0 {
        let rest = s.drop_last();
        assert forall|i: int| 0 < i < rest.len() implies !(rest[i - 1] == '.' && #[trigger] rest[i]
            == '.') by {
            assert(rest[i] == s[i]);
            assert(rest[i - 1] == s[i - 1]);
        }
        lemma_collapse_fixed(rest);
        if s.len() >= 2 {
            assert(!(s[s.len() - 2] == '.' && s[s.len() - 1] == '.'));
        }
        assert(rest.push(s.last()) =~= s);
    }
}

/// Collapsing brings in no character that was not there.
pub proof fn lemma_collapse_members(s: Seq<char>, c: char)
    requires
        forall|i: int| 0 <= i < s.len() ==> #[trigger] s[i] != c,
    ensures
        forall|i: int| 0 <= i < collapse_dots(s).len() ==> #[trigger] collapse_dots(s)[i] != c,
    decreases s.len(),
{
    if s.len() > 0 {
        let rest = s.drop_last();
        assert forall|i: int| 0 <= i < rest.len() implies #[trigger] rest[i] != c by {
            assert(rest[i] == s[i]);
        }
        lemma_collapse_members(rest, c);
        let kept = collapse_dots(rest);
        assert forall|i: int| 0 <= i < collapse_dots(s).len() implies #[trigger] collapse_dots(
            s,
        )[i] != c by {
            if i < kept.len() {
                assert(collapse_dots(s)[i] == kept[i]);
            } else {
                assert(collapse_dots(s)[i] == s[s.len() - 1]);
            }
        }
    }
}

/// The dot-joined form of a text has the shape of one and is no longer than
/// the text.
pub proof fn lemma_dot_joined_shape(s: Seq<char>)
    ensures
        dot_joined(s).len() <= s.len(),
        is_dot_joined(dot_joined(s)),
{
    let t = trim(s, CharClass::Whitespace);
    let d = spaces_to_dots(t);
    let c = collapse_dots(d);
    let e = dot_joined(s);
    lemma_trim_ends(s, CharClass::Whitespace);
    lemma_collapse_dots(d);
    lemma_collapse_members(d, ' ');
    lemma_trim_ends(c, CharClass::Dot);
    lemma_leading(c, CharClass::Dot);
    let te = trim_start(c, CharClass::Dot);
    lemma_trailing(te, CharClass::Dot);
    // every character of `e` is a character of `c`, at a fixed offset
    let off: int = if c == seq!['.'] {
        0
    } else {
        leading(c, CharClass::Dot) as int
    };
    assert forall|i: int| 0 <= i < e.len() implies #[trigger] e[i] == c[i + off] by {}
    assert forall|i: int| 0 <= i < e.len() implies #[trigger] e[i] != ' ' by {
        assert(e[i] == c[i + off]);
    }
    assert forall|i: int| 0 < i < e.len() implies !(e[i - 1] == '.' && #[trigger] e[i] == '.') by {
        assert(e[i] == c[i + off]);
        assert(e[i - 1] == c[i - 1 + off]);
    }
}

/// A text that has the shape of a dot-joined text, and no whitespace at its
/// ends, is its own dot-joined form.
pub proof fn lemma_dot_joined_fixed(y: Seq<char>)
    requires
        !has_edge_whitespace(y),
        is_dot_joined(y),
    ensures
        dot_joined(y) == y,
{
    lemma_trim_fixed(y, CharClass::Whitespace);
    assert(spaces_to_dots(y) =~= y);
    lemma_collapse_fixed(y);
    if y != seq!['.'] {
        lemma_trim_fixed(y, CharClass::Dot);
    }
}

/// A normal form has the shape of a dot-joined text, where lower-casing the
/// dot-joined form leaves full stops and spaces where they are.
pub proof fn normalized_shape(s: Seq<char>)
    requires
        lowercase_keeps_stops(dot_joined(s)),
    ensures
        is_dot_joined(normalized(s)),
        normalized(s).len() <= s.len(),
{
    let e = dot_joined(s);
    let y = normalized(s);
    lemma_dot_joined_shape(s);
    assert forall|i: int| 0 <= i < y.len() implies #[trigger] y[i] != ' ' by {
        assert(e[i] != ' ');
    }
    assert forall|i: int| 0 < i < y.len() implies !(y[i - 1] == '.' && #[trigger] y[i] == '.') by {
        assert(!(e[i - 1] == '.' && e[i] == '.'));
        assert((y[i - 1] == '.') == (e[i - 1] == '.'));
    }
    if e == seq!['.'] {
        assert(y[0] == '.');
        assert(y =~= seq!['.']);
    } else if e.len() > 0 {
        assert((y[0] == '.') == (e[0] == '.'));
        assert((y[y.len() - 1] == '.') == (e[e.len() - 1] == '.'));
    }
}

/// A normal form is never longer than the text, where lower-casing does not
/// lengthen the dot-joined form. (Lower-casing can lengthen: a capital I with
/// a dot above becomes two characters.)
pub proof fn normalized_is_no_longer(s: Seq<char>)
    requires
        lowercase_of(dot_joined(s)).len() <= dot_joined(s).len(),
    ensures
        normalized(s).len() <= s.len(),
{
    lemma_dot_joined_shape(s);
}

/// Normalizing a normal form gives it back, where lower-casing the dot-joined
/// form leaves full stops and spaces where they are and is not undone by
/// lower-casing again, and where the normal form neither begins nor ends
/// with whitespace.
///
/// The last condition leaves out the texts on which a second pass does
/// change the result: a tab that stood behind a leading full stop comes to
/// the front once the full stop is stripped, and a second pass trims it (see
/// `second_pass_trims`).
pub proof fn normalize_twice(x: Seq<char>)
    requires
        lowercase_keeps_stops(dot_joined(x)),
        lowercase_of(normalized(x)) == normalized(x),
        !has_edge_whitespace(normalized(x)),
    ensures
        normalized(normalized(x)) == normalized(x),
{
    normalized_shape(x);
    lemma_dot_joined_fixed(normalized(x));
}

/// Where a normal form begins or ends with whitespace, normalizing it again
/// gives a shorter text, as long as lower-casing does not lengthen.
pub proof fn second_pass_trims(x: Seq<char>)
    requires
        has_edge_whitespace(normalized(x)),
        lowercase_of(dot_joined(normalized(x))).len() <= dot_joined(normalized(x)).len(),
    ensures
        normalized(normalized(x)).len() < normalized(x).len(),
{
    let y = normalized(x);
    let t = trim(y, CharClass::Whitespace);
    lemma_leading(y, CharClass::Whitespace);
    lemma_trailing(trim_start(y, CharClass::Whitespace), CharClass::Whitespace);
    if is_whitespace(y[0]) {
        assert(leading(y, CharClass::Whitespace) >= 1);
    } else {
        let ts = trim_start(y, CharClass::Whitespace);
        assert(ts =~= y);
        assert(trailing(ts, CharClass::Whitespace) >= 1);
    }
    assert(t.len() < y.len());
    let d = spaces_to_dots(t);
    lemma_collapse_dots(d);
    let c = collapse_dots(d);
    lemma_trim_ends(c, CharClass::Dot);
    assert(dot_joined(y).len() <= t.len());
}

/// The dot-joined form of `v`.
fn dot_join(v: &Vec<char>) -> (r: Vec<char>)
    ensures
        r@ == dot_joined(v@),
{
    let t = trimmed(v, CharClass::Whitespace);
    let mut joined: Vec<char> = Vec::new();
    let mut i: usize = 0;
    while i < t.len()
        invariant
            i <= t.len(),
            joined@ == collapse_dots(spaces_to_dots(t@.take(i as int))),
        decreases t.len() - i,
    {
        let c: char = if t[i] == ' ' {
            '.'
        } else {
            t[i]
        };
        proof {
            let before = spaces_to_dots(t@.take(i as int));
            let after = spaces_to_dots(t@.take(i + 1));
            assert(after.drop_last() =~= before);
            assert(after.last() == c);
            lemma_collapse_dots(before);
            if before.len() > 0 {
                assert(before.last() == after[after.len() - 2]);
            }
        }
        let n: usize = joined.len();
        if !(c == '.' && n > 0 && joined[n - 1] == '.') {
            joined.push(c);
        }
        i += 1;
    }
    assert(t@.take(t.len() as int) =~= t@);
    if joined.len() == 1 && joined[0] == '.' {
        assert(joined@ =~= seq!['.']);
        joined
    } else {
        trimmed(&joined, CharClass::Dot)
    }
}

/// The normal form of `v`.
pub(crate) fn normalize_chars(v: &Vec<char>) -> (r: Vec<char>)
    ensures
        r@ == normalized(v@),
{
    let joined = dot_join(v);
    lower_case(&joined)
}

/// Cleans a segment of a file name: trims whitespace, replaces spaces by full
/// stops, collapses runs of full stops, strips the full stops at the ends
/// (a lone full stop stays) and lower-cases the result.
pub fn clean_segment(segment: &str) -> (cleaned: String)
    ensures
        cleaned@ == normalized(segment@),
{
    let v = chars_of(segment);
    let r = normalize_chars(&v);
    string_of(&r)
}

} // verus!
