//! The three shapes that the parser looks for in a stem, and the search for
//! the first place where one of them begins.

use crate::chars::{char_is_digit, chars_of, is_digit};
use crate::tokens::{digits_value, lemma_three_digits};
use vstd::prelude::*;

verus! {

pub open spec fn is_season_letter(c: char) -> bool {
    c == 'S' || c == 's'
}

pub open spec fn is_episode_letter(c: char) -> bool {
    c == 'E' || c == 'e'
}

/// How many digits `s` begins with, counting no more than three.
pub open spec fn digit_run(s: Seq<char>) -> nat {
    if s.len() >= 1 && is_digit(s[0]) {
        if s.len() >= 2 && is_digit(s[1]) {
            if s.len() >= 3 && is_digit(s[2]) {
                3
            } else {
                2
            }
        } else {
            1
        }
    } else {
        0
    }
}

/// An episode marker read at the start of a text.
pub struct EpisodeMark {
    /// How many characters the marker takes.
    pub len: nat,
    /// The number behind the letter.
    pub episode: nat,
}

/// A season-and-episode marker read at the start of a text.
pub struct SeasonMark {
    /// How many characters the marker takes.
    pub len: nat,
    /// The number behind the season letter.
    pub season: nat,
    /// The number behind the episode letter.
    pub episode: nat,
}

/// The episode marker that `s` begins with: the letter `E` in either case and
/// one to three digits, as many as there are.
pub open spec fn episode_prefix(s: Seq<char>) -> Option<EpisodeMark> {
    if s.len() == 0 || !is_episode_letter(s[0]) {
        None
    } else {
        let m = digit_run(s.skip(1));
        if m == 0 {
            None
        } else {
            Some(EpisodeMark { len: 1 + m, episode: digits_value(s.subrange(1, 1 + m as int)) })
        }
    }
}

/// The season-and-episode marker that `s` begins with: the letter `S` in
/// either case, one to three digits, and an episode marker right behind them.
pub open spec fn season_prefix(s: Seq<char>) -> Option<SeasonMark> {
    if s.len() == 0 || !is_season_letter(s[0]) {
        None
    } else {
        let k = digit_run(s.skip(1));
        if k == 0 {
            None
        } else {
            match episode_prefix(s.skip(1 + k as int)) {
                Some(e) => Some(
                    SeasonMark {
                        len: 1 + k + e.len,
                        season: digits_value(s.subrange(1, 1 + k as int)),
                        episode: e.episode,
                    },
                ),
                None => None,
            }
        }
    }
}

/// The number of an episode marker is below 1000.
pub proof fn lemma_episode_number(s: Seq<char>)
    ensures
        episode_prefix(s) matches Some(m) ==> m.episode <= 999,
{
    if episode_prefix(s) is Some {
        let m = digit_run(s.skip(1));
        let d = s.subrange(1, 1 + m as int);
        assert forall|i: int| 0 <= i < d.len() implies is_digit(#[trigger] d[i]) by {
            assert(d[i] == s.skip(1)[i]);
        }
        lemma_three_digits(d);
    }
}

/// The numbers of a season-and-episode marker are below 1000.
pub proof fn lemma_mark_numbers(s: Seq<char>)
    ensures
        season_prefix(s) matches Some(m) ==> m.season <= 999 && m.episode <= 999,
{
    if season_prefix(s) is Some {
        let k = digit_run(s.skip(1));
        let d = s.subrange(1, 1 + k as int);
        assert forall|i: int| 0 <= i < d.len() implies is_digit(#[trigger] d[i]) by {
            assert(d[i] == s.skip(1)[i]);
        }
        lemma_three_digits(d);
        lemma_episode_number(s.skip(1 + k as int));
    }
}

/// The bracketed group of a release suffix `s` opens at `j`: a `[` with
/// at least one character between the hyphen and it, none of them a hyphen,
/// and at least one character between it and the closing `]`, none of them
/// a `]`.
pub open spec fn opens_group(s: Seq<char>, j: int) -> bool {
    &&& 2 <= j < s.len() - 2
    &&& s[j] == '['
    &&& forall|t: int| 1 <= t < j ==> #[trigger] s[t] != '-'
    &&& forall|t: int| j < t < s.len() - 1 ==> #[trigger] s[t] != ']'
}

/// `s` is a release suffix: a hyphen, one or more characters that are no
/// hyphens, and a bracketed group of one or more characters that are no `]`,
/// with nothing behind it.
pub open spec fn is_release_suffix(s: Seq<char>) -> bool {
    &&& s.len() >= 5
    &&& s[0] == '-'
    &&& s.last() == ']'
    &&& exists|j: int| opens_group(s, j)
}

/// What the parser looks for.
#[derive(Clone, Copy, Debug)]
pub enum Pattern {
    /// A release tag at the end of the stem, such as `-Group[Source]`.
    ReleaseSuffix,
    /// A marker such as `S02E14`.
    SeasonEpisode,
    /// A marker such as `E14`.
    Episode,
}

impl Pattern {
    /// `s` begins with the pattern.
    pub open spec fn begins(self, s: Seq<char>) -> bool {
        match self {
            Pattern::ReleaseSuffix => is_release_suffix(s),
            Pattern::SeasonEpisode => season_prefix(s) is Some,
            Pattern::Episode => episode_prefix(s) is Some,
        }
    }
}

/// The pattern matches in `s` from `i` on.
pub open spec fn matches_at(pattern: Pattern, s: Seq<char>, i: int) -> bool {
    0 <= i <= s.len() && pattern.begins(s.skip(i))
}

/// The first place in `s` from which the pattern matches, if there is one.
pub open spec fn first_match(pattern: Pattern, s: Seq<char>) -> Option<nat>
    decreases s.len(),
{
    if pattern.begins(s) {
        Some(0)
    } else if s.len() == 0 {
        None
    } else {
        match first_match(pattern, s.drop_first()) {
            Some(i) => Some(i + 1),
            None => None,
        }
    }
}

/// `first_match` is the least place of a match, and there is none where it
/// finds none.
pub proof fn lemma_first_match(pattern: Pattern, s: Seq<char>)
    ensures
        match first_match(pattern, s) {
            Some(i) => matches_at(pattern, s, i as int) && forall|j: int|
                0 <= j < i ==> !#[trigger] matches_at(pattern, s, j),
            None => forall|j: int| !#[trigger] matches_at(pattern, s, j),
        },
    decreases s.len(),
{
    assert(s.skip(0) =~= s);
    if pattern.begins(s) {
    } else if s.len() == 0 {
        assert forall|j: int| !#[trigger] matches_at(pattern, s, j) by {
            if j == 0 {
                assert(s.skip(0) =~= s);
            }
        }
    } else {
        let rest = s.drop_first();
        lemma_first_match(pattern, rest);
        assert forall|j: int| 1 <= j <= s.len() implies s.skip(j) == rest.skip(j - 1) by {
            assert(s.skip(j) =~= rest.skip(j - 1));
        }
        match first_match(pattern, rest) {
            Some(i) => {
                assert(matches_at(pattern, rest, i as int));
                assert(s.skip(i as int + 1) == rest.skip(i as int));
                assert forall|j: int| 0 <= j < i + 1 implies !#[trigger] matches_at(
                    pattern,
                    s,
                    j,
                ) by {
                    if j >= 1 {
                        assert(!matches_at(pattern, rest, j - 1));
                        assert(s.skip(j) == rest.skip(j - 1));
                    }
                }
            },
            None => {
                assert forall|j: int| !#[trigger] matches_at(pattern, s, j) by {
                    if 1 <= j <= s.len() {
                        assert(!matches_at(pattern, rest, j - 1));
                        assert(s.skip(j) == rest.skip(j - 1));
                    }
                }
            },
        }
    }
}

/// A match with none before it is the first match.
pub proof fn lemma_first_match_is(pattern: Pattern, s: Seq<char>, i: int)
    requires
        matches_at(pattern, s, i),
        forall|j: int| 0 <= j < i ==> !#[trigger] matches_at(pattern, s, j),
    ensures
        first_match(pattern, s) == Some(i as nat),
{
    lemma_first_match(pattern, s);
    match first_match(pattern, s) {
        Some(k) => {
            if k < i {
                assert(matches_at(pattern, s, k as int));
            }
        },
        None => {
            assert(!matches_at(pattern, s, i));
        },
    }
}

/// No match anywhere means no first match.
pub proof fn lemma_first_match_none(pattern: Pattern, s: Seq<char>)
    requires
        forall|j: int| 0 <= j <= s.len() ==> !#[trigger] matches_at(pattern, s, j),
    ensures
        first_match(pattern, s) is None,
{
    lemma_first_match(pattern, s);
    if let Some(k) = first_match(pattern, s) {
        assert(matches_at(pattern, s, k as int));
    }
}

/// How many characters the pattern takes where `s` begins with it.
pub open spec fn match_len(pattern: Pattern, s: Seq<char>) -> nat {
    match pattern {
        Pattern::ReleaseSuffix => s.len(),
        Pattern::SeasonEpisode => match season_prefix(s) {
            Some(m) => m.len,
            None => 0,
        },
        Pattern::Episode => match episode_prefix(s) {
            Some(m) => m.len,
            None => 0,
        },
    }
}

/// The first match of the pattern in `s`, as the places where it begins and
/// ends.
pub open spec fn first_span(pattern: Pattern, s: Seq<char>) -> Option<(nat, nat)> {
    match first_match(pattern, s) {
        Some(i) => Some((i, i + match_len(pattern, s.skip(i as int)))),
        None => None,
    }
}

/// The digit run of `v` from `i` on.
fn digit_run_at(v: &Vec<char>, i: usize) -> (k: usize)
    requires
        i <= v.len(),
    ensures
        k == digit_run(v@.skip(i as int)),
        k <= 3,
        i + k <= v.len(),
{
    let n: usize = v.len();
    if i < n && char_is_digit(v[i]) {
        if n - i >= 2 && char_is_digit(v[i + 1]) {
            if n - i >= 3 && char_is_digit(v[i + 2]) {
                3
            } else {
                2
            }
        } else {
            1
        }
    } else {
        0
    }
}

/// The number that the `count` digits of `v` from `from` on denote.
fn number_at(v: &Vec<char>, from: usize, count: usize) -> (n: u32)
    requires
        count <= 3,
        from + count <= v.len(),
        forall|t: int| from <= t < from + count ==> is_digit(#[trigger] v@[t]),
    ensures
        n == digits_value(v@.subrange(from as int, from + count)),
        n <= 999,
{
    let mut acc: u32 = 0;
    let mut j: usize = 0;
    while j < count
        invariant
            j <= count <= 3,
            from + count <= v.len(),
            forall|t: int| from <= t < from + count ==> is_digit(#[trigger] v@[t]),
            acc == digits_value(v@.subrange(from as int, from + j)),
            j == 0 ==> acc == 0,
            j == 1 ==> acc <= 9,
            j == 2 ==> acc <= 99,
            j == 3 ==> acc <= 999,
        decreases count - j,
    {
        let c: char = v[from + j];
        assert(is_digit(v@[from + j]));
        let d: u32 = (c as u32) - 48;
        proof {
            let next = v@.subrange(from as int, from + j + 1);
            assert(next.drop_last() =~= v@.subrange(from as int, from + j));
            assert(next.last() == c);
        }
        acc = acc * 10 + d;
        j += 1;
    }
    acc
}

/// The episode marker of `v` from `i` on: its length and its number.
fn episode_at(v: &Vec<char>, i: usize) -> (r: Option<(usize, u32)>)
    requires
        i <= v.len(),
    ensures
        match r {
            Some((len, episode)) => episode_prefix(v@.skip(i as int)) == Some(
                EpisodeMark { len: len as nat, episode: episode as nat },
            ) && i + len <= v.len() && 2 <= len <= 4 && episode <= 999,
            None => episode_prefix(v@.skip(i as int)) is None,
        },
{
    let ghost s = v@.skip(i as int);
    if i >= v.len() || !(v[i] == 'E' || v[i] == 'e') {
        return None;
    }
    let m: usize = digit_run_at(v, i + 1);
    assert(s.skip(1) =~= v@.skip(i + 1));
    if m == 0 {
        return None;
    }
    assert forall|t: int| i + 1 <= t < i + 1 + m implies is_digit(#[trigger] v@[t]) by {
        assert(v@[t] == v@.skip(i + 1)[t - i - 1]);
    }
    let episode: u32 = number_at(v, i + 1, m);
    assert(s.subrange(1, 1 + m as int) =~= v@.subrange(i + 1, i + 1 + m));
    Some((1 + m, episode))
}

/// The season-and-episode marker of `v` from `i` on: its length and its two
/// numbers.
fn season_at(v: &Vec<char>, i: usize) -> (r: Option<(usize, u32, u32)>)
    requires
        i <= v.len(),
    ensures
        match r {
            Some((len, season, episode)) => season_prefix(v@.skip(i as int)) == Some(
                SeasonMark { len: len as nat, season: season as nat, episode: episode as nat },
            ) && i + len <= v.len() && 4 <= len <= 8 && season <= 999 && episode <= 999,
            None => season_prefix(v@.skip(i as int)) is None,
        },
{
    let ghost s = v@.skip(i as int);
    if i >= v.len() || !(v[i] == 'S' || v[i] == 's') {
        return None;
    }
    let k: usize = digit_run_at(v, i + 1);
    assert(s.skip(1) =~= v@.skip(i + 1));
    if k == 0 {
        return None;
    }
    assert(s.skip(1 + k as int) =~= v@.skip(i + 1 + k));
    match episode_at(v, i + 1 + k) {
        Some((len, episode)) => {
            assert forall|t: int| i + 1 <= t < i + 1 + k implies is_digit(#[trigger] v@[t]) by {
                assert(v@[t] == v@.skip(i + 1)[t - i - 1]);
            }
            let season: u32 = number_at(v, i + 1, k);
            assert(s.subrange(1, 1 + k as int) =~= v@.subrange(i + 1, i + 1 + k));
            Some((1 + k + len, season, episode))
        },
        None => None,
    }
}

/// Tells whether `v` from `i` on is a release suffix.
fn suffix_at(v: &Vec<char>, i: usize) -> (b: bool)
    requires
        i <= v.len(),
    ensures
        b == is_release_suffix(v@.skip(i as int)),
{
    let n: usize = v.len();
    let ghost s = v@.skip(i as int);
    if n - i < 5 || v[i] != '-' || v[n - 1] != ']' {
        return false;
    }
    // `group` is the least place behind which no `]` stands before the last one
    let mut group: usize = n - 1;
    while group > i + 1 && v[group - 1] != ']'
        invariant
            i + 1 <= group <= n - 1,
            n == v.len(),
            forall|t: int| group <= t < n - 1 ==> #[trigger] v@[t] != ']',
        decreases group,
    {
        group -= 1;
    }
    let mut j: usize = i + 1;
    while j + 2 < n
        invariant
            i + 1 <= j,
            j + 2 <= n,
            n == v.len(),
            n - i >= 5,
            s == v@.skip(i as int),
            v@[i as int] == '-',
            v@[n - 1] == ']',
            i + 1 <= group <= n - 1,
            group > i + 1 ==> v@[group - 1] == ']',
            forall|t: int| group <= t < n - 1 ==> #[trigger] v@[t] != ']',
            forall|t: int| i < t < j ==> #[trigger] v@[t] != '-',
            forall|t: int| 0 <= t < j - i ==> !opens_group(s, t),
        decreases n - j,
    {
        if v[j] == '-' {
            assert forall|t: int| !opens_group(s, t) by {
                if t > j - i {
                    assert(s[j - i] == '-');
                } else if t == j - i {
                    assert(s[t] == '-');
                }
            }
            return false;
        }
        if j >= i + 2 && v[j] == '[' && j + 1 >= group {
            assert(opens_group(s, j - i)) by {
                assert forall|t: int| 1 <= t < j - i implies #[trigger] s[t] != '-' by {
                    assert(s[t] == v@[i + t]);
                }
                assert forall|t: int| j - i < t < s.len() - 1 implies #[trigger] s[t] != ']' by {
                    assert(s[t] == v@[i + t]);
                }
            }
            return true;
        }
        assert(!opens_group(s, j - i)) by {
            if j >= i + 2 && v@[j as int] == '[' {
                // a `]` stands between the bracket and the last character
                assert(group - 1 > j);
                assert(v@[group - 1] == ']');
                assert(s[group - 1 - i] == ']');
            }
        }
        j += 1;
    }
    assert forall|t: int| !opens_group(s, t) by {}
    false
}

/// Tells whether the pattern matches in `v` from `i` on.
fn begins_at(pattern: Pattern, v: &Vec<char>, i: usize) -> (r: Option<usize>)
    requires
        i <= v.len(),
    ensures
        r is Some == matches_at(pattern, v@, i as int),
        r matches Some(len) ==> len == match_len(pattern, v@.skip(i as int)) && i + len
            <= v.len(),
{
    match pattern {
        Pattern::ReleaseSuffix => {
            if suffix_at(v, i) {
                Some(v.len() - i)
            } else {
                None
            }
        },
        Pattern::SeasonEpisode => match season_at(v, i) {
            Some((len, _, _)) => Some(len),
            None => None,
        },
        Pattern::Episode => match episode_at(v, i) {
            Some((len, _)) => Some(len),
            None => None,
        },
    }
}

/// The first match of the pattern in `v`.
pub(crate) fn find_first_chars(pattern: Pattern, v: &Vec<char>) -> (r: Option<(usize, usize)>)
    ensures
        r is Some == first_span(pattern, v@) is Some,
        r matches Some((start, end)) ==> first_span(pattern, v@) == Some(
            (start as nat, end as nat),
        ) && start <= end <= v.len(),
{
    let mut i: usize = 0;
    while i < v.len()
        invariant
            i <= v.len(),
            forall|j: int| 0 <= j < i ==> !#[trigger] matches_at(pattern, v@, j),
        decreases v.len() - i,
    {
        match begins_at(pattern, v, i) {
            Some(len) => {
                proof {
                    lemma_first_match_is(pattern, v@, i as int);
                }
                return Some((i, i + len));
            },
            None => {},
        }
        i += 1;
    }
    proof {
        // none of the patterns matches the empty rest
        assert(v@.skip(v.len() as int).len() == 0);
        lemma_first_match_none(pattern, v@);
    }
    None
}

/// The first season-and-episode marker of `v`: where it begins, where it
/// ends, and its two numbers.
pub(crate) fn first_season_mark(v: &Vec<char>) -> (r: Option<(usize, usize, u32, u32)>)
    ensures
        match r {
            Some((start, end, season, episode)) => {
                &&& first_match(Pattern::SeasonEpisode, v@) == Some(start as nat)
                &&& season_prefix(v@.skip(start as int)) == Some(
                    SeasonMark {
                        len: (end - start) as nat,
                        season: season as nat,
                        episode: episode as nat,
                    },
                )
                &&& start <= end <= v.len()
            },
            None => first_match(Pattern::SeasonEpisode, v@) is None,
        },
{
    match find_first_chars(Pattern::SeasonEpisode, v) {
        Some((start, _)) => {
            proof {
                lemma_first_match(Pattern::SeasonEpisode, v@);
            }
            match season_at(v, start) {
                Some((len, season, episode)) => Some((start, start + len, season, episode)),
                None => None,
            }
        },
        None => None,
    }
}

/// The first episode marker of `v`: where it begins, where it ends, and its
/// number.
pub(crate) fn first_episode_mark(v: &Vec<char>) -> (r: Option<(usize, usize, u32)>)
    ensures
        match r {
            Some((start, end, episode)) => {
                &&& first_match(Pattern::Episode, v@) == Some(start as nat)
                &&& episode_prefix(v@.skip(start as int)) == Some(
                    EpisodeMark { len: (end - start) as nat, episode: episode as nat },
                )
                &&& start <= end <= v.len()
            },
            None => first_match(Pattern::Episode, v@) is None,
        },
{
    match find_first_chars(Pattern::Episode, v) {
        Some((start, _)) => {
            proof {
                lemma_first_match(Pattern::Episode, v@);
            }
            match episode_at(v, start) {
                Some((len, episode)) => Some((start, start + len, episode)),
                None => None,
            }
        },
        None => None,
    }
}

/// Finds the first match of the pattern in `text`: the place where it begins
/// and the place where it ends, both counted in characters.
pub fn find_first(pattern: Pattern, text: &str) -> (r: Option<(usize, usize)>)
    ensures
        match r {
            Some((start, end)) => first_span(pattern, text@) == Some((start as nat, end as nat)),
            None => first_span(pattern, text@) is None,
        },
{
    let v = chars_of(text);
    find_first_chars(pattern, &v)
}

} // verus!
