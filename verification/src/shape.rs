//! Where season-and-episode markers can and cannot stand: cleaning and
//! title-casing a text bring no marker into it, as long as case mapping
//! keeps the parts that the characters play.

use crate::chars::{is_digit, lowercase_of, unicode_uppercase};
use crate::markers::{
    digit_run, episode_prefix, is_episode_letter, is_season_letter, matches_at, Pattern,
};
use crate::normalize::{
    collapse_dots, dot_joined, lemma_collapse_dots, normalized, spaces_to_dots, strip_edge_dots,
};
use crate::text::{lemma_leading, lemma_trailing, leading, trailing, trim, trim_start, CharClass};
use crate::title::{
    capitalized, join_dots, lemma_split_nonempty, split_dots, title_cased, title_word, title_words,
};
use vstd::prelude::*;

verus! {

/// A season-and-episode marker with `k` season digits stands in `s` at `at`:
/// the season letter, `k` digits, the episode letter and a digit.
pub open spec fn shaped(s: Seq<char>, at: int, k: int) -> bool {
    &&& 1 <= k <= 3
    &&& 0 <= at
    &&& at + k + 3 <= s.len()
    &&& is_season_letter(s[at])
    &&& forall|t: int| 1 <= t <= k ==> is_digit(#[trigger] s[at + t])
    &&& is_episode_letter(s[at + k + 1])
    &&& is_digit(s[at + k + 2])
}

/// No season-and-episode marker stands anywhere in `s`.
pub open spec fn marker_free(s: Seq<char>) -> bool {
    forall|at: int, k: int| !#[trigger] shaped(s, at, k)
}

/// Two characters play the same part in a marker, or none.
pub open spec fn same_part(a: char, b: char) -> bool {
    &&& is_season_letter(a) == is_season_letter(b)
    &&& is_episode_letter(a) == is_episode_letter(b)
    &&& is_digit(a) == is_digit(b)
}

/// Where the pattern matches, a marker of some width stands.
pub proof fn lemma_match_is_shaped(s: Seq<char>, at: int) -> (k: int)
    requires
        matches_at(Pattern::SeasonEpisode, s, at),
    ensures
        shaped(s, at, k),
{
    let r = s.skip(at);
    let k = digit_run(r.skip(1)) as int;
    let e = r.skip(1 + k);
    assert(episode_prefix(e) is Some);
    assert forall|t: int| 1 <= t <= k implies is_digit(#[trigger] s[at + t]) by {
        assert(s[at + t] == r.skip(1)[t - 1]);
    }
    assert(s[at + k + 1] == e[0]);
    assert(s[at + k + 2] == e.skip(1)[0]);
    k
}

/// Where a marker stands, the pattern matches.
pub proof fn lemma_shaped_is_match(s: Seq<char>, at: int, k: int)
    requires
        shaped(s, at, k),
    ensures
        matches_at(Pattern::SeasonEpisode, s, at),
{
    let r = s.skip(at);
    assert(r[0] == s[at]);
    let digits = r.skip(1);
    assert forall|t: int| 0 <= t < k implies is_digit(#[trigger] digits[t]) by {
        assert(digits[t] == s[at + (t + 1)]);
    }
    assert(digits[k] == s[at + k + 1]);
    assert(digit_run(digits) == k) by {
        assert(is_digit(digits[0]));
        if k >= 2 {
            assert(is_digit(digits[1]));
        }
        if k >= 3 {
            assert(is_digit(digits[2]));
        }
    }
    let e = r.skip(1 + k);
    assert(e[0] == s[at + k + 1]);
    assert(e.skip(1)[0] == s[at + k + 2]);
}

/// A text without a marker has no match, and the other way round.
pub proof fn lemma_marker_free(s: Seq<char>)
    ensures
        marker_free(s) <==> forall|at: int| !#[trigger] matches_at(Pattern::SeasonEpisode, s, at),
{
    if marker_free(s) {
        assert forall|at: int| !#[trigger] matches_at(Pattern::SeasonEpisode, s, at) by {
            if matches_at(Pattern::SeasonEpisode, s, at) {
                let k = lemma_match_is_shaped(s, at);
            }
        }
    }
    if forall|at: int| !#[trigger] matches_at(Pattern::SeasonEpisode, s, at) {
        assert forall|at: int, k: int| !#[trigger] shaped(s, at, k) by {
            if shaped(s, at, k) {
                lemma_shaped_is_match(s, at, k);
            }
        }
    }
}

/// A piece of a text without a marker holds none.
pub proof fn lemma_piece_marker_free(s: Seq<char>, from: int, to: int)
    requires
        marker_free(s),
        0 <= from <= to <= s.len(),
    ensures
        marker_free(s.subrange(from, to)),
{
    let piece = s.subrange(from, to);
    assert forall|at: int, k: int| !#[trigger] shaped(piece, at, k) by {
        if shaped(piece, at, k) {
            assert forall|t: int| 1 <= t <= k implies is_digit(#[trigger] s[from + at + t]) by {
                assert(s[from + at + t] == piece[at + t]);
            }
            assert(piece[at] == s[from + at]);
            assert(piece[at + k + 1] == s[from + at + k + 1]);
            assert(piece[at + k + 2] == s[from + at + k + 2]);
            assert(shaped(s, from + at, k));
        }
    }
}

/// What stands before the first marker of a text holds no marker.
pub proof fn lemma_before_first_marker(s: Seq<char>, i: int)
    requires
        0 <= i <= s.len(),
        forall|j: int| 0 <= j < i ==> !#[trigger] matches_at(Pattern::SeasonEpisode, s, j),
    ensures
        marker_free(s.take(i)),
{
    let head = s.take(i);
    assert forall|at: int, k: int| !#[trigger] shaped(head, at, k) by {
        if shaped(head, at, k) {
            assert forall|t: int| 1 <= t <= k implies is_digit(#[trigger] s[at + t]) by {
                assert(s[at + t] == head[at + t]);
            }
            assert(head[at] == s[at]);
            assert(head[at + k + 1] == s[at + k + 1]);
            assert(head[at + k + 2] == s[at + k + 2]);
            assert(shaped(s, at, k));
            lemma_shaped_is_match(s, at, k);
        }
    }
}

/// A text that plays, place by place, the same parts as a text without a
/// marker holds none either.
pub proof fn lemma_same_parts_marker_free(s: Seq<char>, r: Seq<char>)
    requires
        marker_free(s),
        r.len() == s.len(),
        forall|i: int| 0 <= i < s.len() ==> same_part(#[trigger] r[i], s[i]),
    ensures
        marker_free(r),
{
    assert forall|at: int, k: int| !#[trigger] shaped(r, at, k) by {
        if shaped(r, at, k) {
            assert forall|t: int| 1 <= t <= k implies is_digit(#[trigger] s[at + t]) by {
                assert(same_part(r[at + t], s[at + t]));
            }
            assert(same_part(r[at], s[at]));
            assert(same_part(r[at + k + 1], s[at + k + 1]));
            assert(same_part(r[at + k + 2], s[at + k + 2]));
            assert(shaped(s, at, k));
        }
    }
}

/// Lower-casing `t` goes character by character and keeps the part that each
/// character plays in a marker: what is `S`, `E` or a digit, in either case,
/// stays one, and nothing else becomes one.
pub open spec fn lowercase_keeps_parts(t: Seq<char>) -> bool {
    &&& lowercase_of(t).len() == t.len()
    &&& forall|i: int| 0 <= i < t.len() ==> same_part(#[trigger] lowercase_of(t)[i], t[i])
}

/// Upper-casing `c` gives one character, which plays the part of `c` in a
/// marker.
pub open spec fn uppercase_keeps_part(c: char) -> bool {
    unicode_uppercase(c).len() == 1 && same_part(unicode_uppercase(c)[0], c)
}

/// Title-casing `s` upper-cases no character but such: the first character of
/// every segment of `s` keeps its part when upper-cased.
pub open spec fn title_keeps_parts(s: Seq<char>) -> bool {
    forall|j: int|
        0 <= j < split_dots(s).len() && (#[trigger] split_dots(s)[j]).len() > 0
            ==> uppercase_keeps_part(split_dots(s)[j][0])
}

/// Where the last `n` characters of a collapsed text are no full stops, they
/// are the last `n` characters of the text itself.
proof fn lemma_collapse_tail(s: Seq<char>, n: int)
    requires
        0 <= n <= collapse_dots(s).len(),
        forall|t: int|
            collapse_dots(s).len() - n <= t < collapse_dots(s).len() ==> #[trigger] collapse_dots(
                s,
            )[t] != '.',
    ensures
        n <= s.len(),
        forall|t: int|
            0 <= t < n ==> #[trigger] collapse_dots(s)[collapse_dots(s).len() - n + t] == s[s.len()
                - n + t],
    decreases n,
{
    let c = collapse_dots(s);
    lemma_collapse_dots(s);
    if n > 0 {
        assert(s.len() > 0);
        let rest = s.drop_last();
        assert(c[c.len() - 1] != '.');
        assert(c.last() == s.last());
        assert(c == collapse_dots(rest).push(s.last()));
        let cr = collapse_dots(rest);
        assert forall|t: int| cr.len() - (n - 1) <= t < cr.len() implies #[trigger] cr[t]
            != '.' by {
            assert(cr[t] == c[t]);
        }
        lemma_collapse_tail(rest, n - 1);
        assert forall|t: int| 0 <= t < n implies #[trigger] c[c.len() - n + t] == s[s.len() - n
            + t] by {
            if t < n - 1 {
                assert(c[c.len() - n + t] == cr[cr.len() - (n - 1) + t]);
                assert(rest[rest.len() - (n - 1) + t] == s[s.len() - n + t]);
            }
        }
    }
}

/// Collapsing runs of full stops brings no marker into a text.
pub proof fn lemma_collapse_marker_free(s: Seq<char>)
    requires
        marker_free(s),
    ensures
        marker_free(collapse_dots(s)),
    decreases s.len(),
{
    let c = collapse_dots(s);
    if s.len() > 0 {
        let rest = s.drop_last();
        assert(rest == s.subrange(0, s.len() - 1));
        lemma_piece_marker_free(s, 0, s.len() - 1);
        lemma_collapse_marker_free(rest);
        let cr = collapse_dots(rest);
        assert forall|at: int, k: int| !#[trigger] shaped(c, at, k) by {
            if shaped(c, at, k) {
                if at + k + 3 <= cr.len() {
                    assert forall|t: int| 1 <= t <= k implies is_digit(#[trigger] cr[at + t]) by {
                        assert(cr[at + t] == c[at + t]);
                    }
                    assert(cr[at] == c[at]);
                    assert(cr[at + k + 1] == c[at + k + 1]);
                    assert(cr[at + k + 2] == c[at + k + 2]);
                    assert(shaped(cr, at, k));
                } else {
                    // the marker ends with the text
                    let n = k + 3;
                    assert(c.len() == cr.len() + 1);
                    assert(at + n == c.len());
                    assert forall|t: int| c.len() - n <= t < c.len() implies #[trigger] c[t]
                        != '.' by {
                        if at < t <= at + k {
                            assert(is_digit(c[at + (t - at)]));
                        }
                    }
                    lemma_collapse_tail(s, n);
                    let from = s.len() - n;
                    assert forall|t: int| 1 <= t <= k implies is_digit(#[trigger] s[from + t]) by {
                        assert(c[c.len() - n + t] == s[s.len() - n + t]);
                        assert(is_digit(c[at + t]));
                    }
                    assert(c[c.len() - n + 0] == s[s.len() - n + 0]);
                    assert(c[c.len() - n + (k + 1)] == s[s.len() - n + (k + 1)]);
                    assert(c[c.len() - n + (k + 2)] == s[s.len() - n + (k + 2)]);
                    assert(shaped(s, from, k));
                }
            }
        }
    }
}

/// Normalizing brings no marker into a text, where lower-casing keeps the
/// parts of its dot-joined form.
pub proof fn lemma_normalized_marker_free(s: Seq<char>)
    requires
        marker_free(s),
        lowercase_keeps_parts(dot_joined(s)),
    ensures
        marker_free(normalized(s)),
{
    lemma_leading(s, CharClass::Whitespace);
    let ts = trim_start(s, CharClass::Whitespace);
    lemma_trailing(ts, CharClass::Whitespace);
    let t = trim(s, CharClass::Whitespace);
    assert(t =~= s.subrange(leading(s, CharClass::Whitespace) as int, s.len() - trailing(
        ts,
        CharClass::Whitespace,
    )));
    lemma_piece_marker_free(s, leading(s, CharClass::Whitespace) as int, s.len() - trailing(
        ts,
        CharClass::Whitespace,
    ));
    let d = spaces_to_dots(t);
    lemma_same_parts_marker_free(t, d);
    lemma_collapse_marker_free(d);
    let c = collapse_dots(d);
    let e = strip_edge_dots(c);
    if c != seq!['.'] {
        lemma_leading(c, CharClass::Dot);
        let cs = trim_start(c, CharClass::Dot);
        lemma_trailing(cs, CharClass::Dot);
        assert(e =~= c.subrange(leading(c, CharClass::Dot) as int, c.len() - trailing(
            cs,
            CharClass::Dot,
        )));
        lemma_piece_marker_free(c, leading(c, CharClass::Dot) as int, c.len() - trailing(
            cs,
            CharClass::Dot,
        ));
    }
    assert(e == dot_joined(s));
    lemma_same_parts_marker_free(e, lowercase_of(e));
}

/// Every segment of a text is a piece of it, and the last segment reaches to
/// its end.
proof fn lemma_segment_piece(s: Seq<char>, j: int) -> (from: int)
    requires
        0 <= j < split_dots(s).len(),
    ensures
        0 <= from,
        from + split_dots(s)[j].len() <= s.len(),
        split_dots(s)[j] == s.subrange(from, from + split_dots(s)[j].len()),
        j == split_dots(s).len() - 1 ==> from + split_dots(s)[j].len() == s.len(),
    decreases s.len(),
{
    if s.len() == 0 {
        assert(split_dots(s)[0] =~= s.subrange(0, 0));
        0
    } else {
        let rest = s.drop_last();
        let before = split_dots(rest);
        lemma_split_nonempty(rest);
        if s.last() == '.' {
            if j == before.len() {
                assert(split_dots(s)[j] =~= s.subrange(s.len() as int, s.len() as int));
                s.len() as int
            } else {
                let from = lemma_segment_piece(rest, j);
                assert(rest.subrange(from, from + before[j].len()) =~= s.subrange(
                    from,
                    from + before[j].len(),
                ));
                from
            }
        } else {
            if j == before.len() - 1 {
                let from = lemma_segment_piece(rest, j);
                assert(split_dots(s)[j] == before[j].push(s.last()));
                assert(before[j].push(s.last()) =~= s.subrange(from, from + before[j].len() + 1));
                from
            } else {
                let from = lemma_segment_piece(rest, j);
                assert(split_dots(s)[j] == before[j]);
                assert(rest.subrange(from, from + before[j].len()) =~= s.subrange(
                    from,
                    from + before[j].len(),
                ));
                from
            }
        }
    }
}

/// Two texts without a marker, joined by a full stop, hold no marker.
pub proof fn lemma_dot_joins_marker_free(a: Seq<char>, b: Seq<char>)
    requires
        marker_free(a),
        marker_free(b),
    ensures
        marker_free(a + seq!['.'] + b),
{
    let j = a + seq!['.'] + b;
    let dot = a.len() as int;
    assert(j[dot] == '.');
    assert forall|at: int, k: int| !#[trigger] shaped(j, at, k) by {
        if shaped(j, at, k) {
            if at + k + 3 <= dot {
                assert forall|t: int| 1 <= t <= k implies is_digit(#[trigger] a[at + t]) by {
                    assert(a[at + t] == j[at + t]);
                }
                assert(a[at] == j[at]);
                assert(a[at + k + 1] == j[at + k + 1]);
                assert(a[at + k + 2] == j[at + k + 2]);
                assert(shaped(a, at, k));
            } else if at > dot {
                let off = at - dot - 1;
                assert forall|t: int| 1 <= t <= k implies is_digit(#[trigger] b[off + t]) by {
                    assert(b[off + t] == j[at + t]);
                }
                assert(b[off] == j[at]);
                assert(b[off + k + 1] == j[at + k + 1]);
                assert(b[off + k + 2] == j[at + k + 2]);
                assert(shaped(b, off, k));
            } else {
                // the full stop would be part of the marker
                if at < dot <= at + k {
                    assert(is_digit(j[at + (dot - at)]));
                }
            }
        }
    }
}

/// Words without a marker, joined by full stops, hold no marker.
proof fn lemma_join_marker_free(words: Seq<Seq<char>>)
    requires
        forall|i: int| 0 <= i < words.len() ==> marker_free(#[trigger] words[i]),
    ensures
        marker_free(join_dots(words)),
    decreases words.len(),
{
    if words.len() == 0 {
        assert forall|at: int, k: int| !#[trigger] shaped(join_dots(words), at, k) by {}
    } else if words.len() == 1 {
        assert(marker_free(words[0]));
    } else {
        let front = words.drop_last();
        assert forall|i: int| 0 <= i < front.len() implies marker_free(#[trigger] front[i]) by {
            assert(front[i] == words[i]);
        }
        lemma_join_marker_free(front);
        assert(marker_free(words[words.len() - 1]));
        lemma_dot_joins_marker_free(join_dots(front), words.last());
    }
}

/// The title form of a word without a marker holds none, where upper-casing
/// its first character keeps that character's part.
proof fn lemma_title_word_marker_free(index: int, w: Seq<char>)
    requires
        marker_free(w),
        w.len() > 0 ==> uppercase_keeps_part(w[0]),
    ensures
        marker_free(title_word(index, w)),
{
    if w.len() > 0 {
        let c = capitalized(w);
        assert(c.len() == w.len());
        assert forall|i: int| 0 <= i < w.len() implies same_part(#[trigger] c[i], w[i]) by {
            if i == 0 {
                assert(c[0] == unicode_uppercase(w[0])[0]);
            } else {
                assert(c[i] == w.skip(1)[i - 1]);
            }
        }
        lemma_same_parts_marker_free(w, c);
    }
}

/// The title words of the segments of a text without a marker hold none.
proof fn lemma_title_words_marker_free(s: Seq<char>, n: nat)
    requires
        marker_free(s),
        title_keeps_parts(s),
        n <= split_dots(s).len(),
    ensures
        forall|i: int|
            0 <= i < title_words(split_dots(s), n).len() ==> marker_free(
                #[trigger] title_words(split_dots(s), n)[i],
            ),
    decreases n,
{
    if n > 0 {
        let segments = split_dots(s);
        lemma_title_words_marker_free(s, (n - 1) as nat);
        let before = title_words(segments, (n - 1) as nat);
        let now = title_words(segments, n);
        let from = lemma_segment_piece(s, n - 1);
        lemma_piece_marker_free(s, from, from + segments[n - 1].len());
        lemma_title_word_marker_free(n - 1, segments[n - 1]);
        assert forall|i: int| 0 <= i < now.len() implies marker_free(#[trigger] now[i]) by {
            if i < before.len() {
                assert(now[i] == before[i]);
            }
        }
    }
}

/// Title-casing brings no marker into a text, where upper-casing keeps the
/// part of every character that it is applied to.
pub proof fn lemma_title_marker_free(s: Seq<char>)
    requires
        marker_free(s),
        title_keeps_parts(s),
    ensures
        marker_free(title_cased(s)),
{
    lemma_title_words_marker_free(s, split_dots(s).len());
    lemma_join_marker_free(title_words(split_dots(s), split_dots(s).len()));
}

} // verus!
