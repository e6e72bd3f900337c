//! Parsing a planned name again gives the tokens that went into it.

use crate::chars::is_digit;
use crate::fallback::FallbackText;
use crate::markers::{
    digit_run, episode_prefix, first_match, lemma_first_match, lemma_first_match_is, matches_at,
    season_prefix, EpisodeMark, Pattern, SeasonMark,
};
use crate::normalize::{dot_joined, normalized};
use crate::parser::{
    extension_dot, extension_of, parsed, parsed_tokens_are_canonical, parts_of, stem_of,
    without_release_suffix, ParsedText,
};
use crate::planner::{final_season, final_show, new_stem, overrides, planned_name};
use crate::shape::{
    lemma_before_first_marker, lemma_marker_free, lemma_match_is_shaped,
    lemma_normalized_marker_free, lemma_title_marker_free, lowercase_keeps_parts, marker_free,
    shaped, title_keeps_parts,
};
use crate::text::{lemma_trailing, lemma_trailing_is, trim_end, CharClass};
use crate::title::title_cased;
use crate::tokens::{padded, token, token_denotes_number};
use vstd::prelude::*;

verus! {

/// What a planned name begins with: the title-cased show name, a full stop,
/// and the two tokens.
pub open spec fn name_head(show: Seq<char>, season: Seq<char>, episode: Seq<char>) -> Seq<char> {
    title_cased(show) + seq!['.'] + season + episode
}

/// The stem that a parse of `name` works on: the name without its extension
/// and without its release suffix.
pub open spec fn working_stem(name: Seq<char>) -> Seq<char> {
    without_release_suffix(stem_of(name))
}

/// A fallback whose season can be read back from a name: the token of a
/// number below 1000. (A marker takes three season digits at most.)
pub open spec fn season_fits_marker(fallback: FallbackText) -> bool {
    match fallback {
        FallbackText::Applied { season, .. } => exists|n: nat|
            n <= 999 && season == #[trigger] token('S', n),
        _ => true,
    }
}

/// The season and episode tokens that a name parses to which begins with
/// `title`, a full stop and the tokens `season` and `episode`: those of the
/// first marker in the title, and, where the title holds none, the two
/// tokens themselves.
pub open spec fn tokens_read(title: Seq<char>, season: Seq<char>, episode: Seq<char>) -> (
    Seq<char>,
    Seq<char>,
) {
    match first_match(Pattern::SeasonEpisode, title) {
        Some(i) => {
            let mark = season_prefix(title.skip(i as int))->0;
            (token('S', mark.season), token('E', mark.episode))
        },
        None => (season, episode),
    }
}

/// The text that a parse takes the show name from: what stands before the
/// first season-and-episode marker of the working stem.
pub open spec fn show_text(name: Seq<char>) -> Seq<char> {
    match first_match(Pattern::SeasonEpisode, working_stem(name)) {
        Some(i) => working_stem(name).take(i as int),
        None => working_stem(name),
    }
}

/// The new name of the item, read again, is not cut before the end of its
/// tokens: neither by a release suffix that begins in the show name, nor by
/// the tokens being taken for the extension of a name that has none.
pub open spec fn marker_in_reach(item: ParsedText, fallback: FallbackText) -> bool {
    planned_name(item, fallback) matches Ok(name) && working_stem(name).len() >= name_head(
        final_show(item, fallback)->0,
        final_season(item, fallback)->0,
        item.episode_number_part->0,
    ).len()
}

/// The stem that a parse works on is the beginning of the name.
pub proof fn lemma_working_stem_is_prefix(name: Seq<char>)
    ensures
        working_stem(name).len() <= name.len(),
        working_stem(name) == name.take(working_stem(name).len() as int),
{
    let stem = stem_of(name);
    lemma_trailing(name, CharClass::NonDot);
    assert(stem.len() <= name.len());
    assert(stem =~= name.take(stem.len() as int));
    lemma_first_match(Pattern::ReleaseSuffix, stem);
    match first_match(Pattern::ReleaseSuffix, stem) {
        Some(i) => {
            let cut = stem.take(i as int);
            lemma_trailing(cut, CharClass::Whitespace);
            let w = trim_end(cut, CharClass::Whitespace);
            assert(w =~= name.take(w.len() as int));
        },
        None => {},
    }
}

/// A text that begins with a show name without a marker, a full stop and the
/// tokens of two numbers below 1000, and goes on, if at all, with a full
/// stop, parses to these two tokens, however much of what follows them it
/// holds.
pub proof fn lemma_head_parses(
    title: Seq<char>,
    s: nat,
    e: nat,
    tail: Seq<char>,
    stem: Seq<char>,
)
    requires
        marker_free(title),
        s <= 999,
        e <= 999,
        tail.len() == 0 || tail[0] == '.',
        stem.len() >= (title + seq!['.'] + token('S', s) + token('E', e)).len(),
        stem.len() <= (title + seq!['.'] + token('S', s) + token('E', e) + tail).len(),
        stem == (title + seq!['.'] + token('S', s) + token('E', e) + tail).take(stem.len() as int),
    ensures
        parts_of(stem).season == Some(token('S', s)),
        parts_of(stem).episode == Some(token('E', e)),
{
    let ts = token('S', s);
    let te = token('E', e);
    let whole = title + seq!['.'] + ts + te + tail;
    token_denotes_number('S', s);
    token_denotes_number('E', e);
    let ds = padded(s);
    let de = padded(e);
    let ks = ds.len() as int;
    let ke = de.len() as int;
    let p = title.len() as int + 1;
    assert(2 <= ks <= 3 && 2 <= ke <= 3);
    assert(ts.len() == 1 + ks && te.len() == 1 + ke);
    // what stands where
    assert(whole[p - 1] == '.');
    assert(whole[p] == 'S') by {
        assert(whole[p] == ts[0]);
    }
    assert forall|t: int| 0 <= t < ks implies #[trigger] whole[p + 1 + t] == ds[t] by {
        assert(whole[p + 1 + t] == ts[1 + t]);
        assert(ts.skip(1)[t] == ts[1 + t]);
    }
    assert(whole[p + 1 + ks] == 'E') by {
        assert(whole[p + 1 + ks] == te[0]);
    }
    assert forall|t: int| 0 <= t < ke implies #[trigger] whole[p + 2 + ks + t] == de[t] by {
        assert(whole[p + 2 + ks + t] == te[1 + t]);
        assert(te.skip(1)[t] == te[1 + t]);
    }
    let end = p + 2 + ks + ke;
    assert(stem.len() >= end);
    assert forall|i: int| 0 <= i < stem.len() implies #[trigger] stem[i] == whole[i] by {}
    if stem.len() > end {
        assert(whole[end] == tail[0]);
        assert(stem[end] == '.');
    }
    // the marker at `p`
    let r = stem.skip(p);
    assert(r[0] == 'S');
    let after_s = r.skip(1);
    assert forall|t: int| 0 <= t < ks implies #[trigger] after_s[t] == ds[t] by {
        assert(after_s[t] == stem[p + 1 + t]);
        assert(stem[p + 1 + t] == whole[p + 1 + t]);
    }
    assert(after_s[ks] == 'E') by {
        assert(after_s[ks] == stem[p + 1 + ks]);
    }
    assert(digit_run(after_s) == ks) by {
        assert(is_digit(ds[0]) && is_digit(ds[1]));
        assert(after_s[0] == ds[0] && after_s[1] == ds[1]);
        if ks == 3 {
            assert(is_digit(ds[2]));
            assert(after_s[2] == ds[2]);
        }
    }
    assert(r.subrange(1, 1 + ks) =~= ds) by {
        assert forall|t: int| 0 <= t < ks implies r.subrange(1, 1 + ks)[t] == ds[t] by {
            assert(r.subrange(1, 1 + ks)[t] == after_s[t]);
        }
    }
    let re = r.skip(1 + ks);
    assert(re[0] == 'E') by {
        assert(re[0] == stem[p + 1 + ks]);
    }
    let after_e = re.skip(1);
    assert forall|t: int| 0 <= t < ke implies #[trigger] after_e[t] == de[t] by {
        assert(after_e[t] == stem[p + 2 + ks + t]);
        assert(stem[p + 2 + ks + t] == whole[p + 2 + ks + t]);
    }
    assert(digit_run(after_e) == ke) by {
        assert(is_digit(de[0]) && is_digit(de[1]));
        assert(after_e[0] == de[0] && after_e[1] == de[1]);
        if ke == 3 {
            assert(is_digit(de[2]));
            assert(after_e[2] == de[2]);
        } else if after_e.len() > 2 {
            assert(after_e[2] == stem[end]);
        }
    }
    assert(re.subrange(1, 1 + ke) =~= de) by {
        assert forall|t: int| 0 <= t < ke implies re.subrange(1, 1 + ke)[t] == de[t] by {
            assert(re.subrange(1, 1 + ke)[t] == after_e[t]);
        }
    }
    assert(episode_prefix(re) == Some(EpisodeMark { len: (1 + ke) as nat, episode: e }));
    assert(season_prefix(r) == Some(
        SeasonMark { len: (1 + ks + 1 + ke) as nat, season: s, episode: e },
    ));
    assert(matches_at(Pattern::SeasonEpisode, stem, p));
    // no marker before `p`
    assert forall|at: int| 0 <= at < p implies !#[trigger] matches_at(
        Pattern::SeasonEpisode,
        stem,
        at,
    ) by {
        if matches_at(Pattern::SeasonEpisode, stem, at) {
            let k = lemma_match_is_shaped(stem, at);
            let dot = p - 1;
            assert(stem[dot] == '.');
            if at + k + 3 <= dot {
                assert forall|t: int| 1 <= t <= k implies is_digit(#[trigger] title[at + t]) by {
                    assert(title[at + t] == whole[at + t]);
                    assert(stem[at + t] == whole[at + t]);
                }
                assert(title[at] == stem[at]) by {
                    assert(title[at] == whole[at]);
                }
                assert(title[at + k + 1] == stem[at + k + 1]) by {
                    assert(title[at + k + 1] == whole[at + k + 1]);
                }
                assert(title[at + k + 2] == stem[at + k + 2]) by {
                    assert(title[at + k + 2] == whole[at + k + 2]);
                }
                assert(shaped(title, at, k));
            } else if at < dot <= at + k {
                // the full stop would be one of the digits
                assert(is_digit(stem[at + (dot - at)]));
            }
        }
    }
    lemma_first_match_is(Pattern::SeasonEpisode, stem, p);
}

/// A full stop ends a run of digits: a text reads the same digits as what
/// stands in it before a full stop.
proof fn lemma_run_before_dot(a: Seq<char>, b: Seq<char>)
    requires
        a.len() < b.len(),
        b.take(a.len() as int) == a,
        b[a.len() as int] == '.',
    ensures
        digit_run(b) == digit_run(a),
        digit_run(a) <= a.len(),
{
    assert forall|t: int| 0 <= t < a.len() implies #[trigger] b[t] == a[t] by {
        assert(b.take(a.len() as int)[t] == b[t]);
    }
    if a.len() >= 1 {
        assert(b[0] == a[0]);
    }
    if a.len() >= 2 {
        assert(b[1] == a[1]);
    }
    if a.len() >= 3 {
        assert(b[2] == a[2]);
    }
}

/// What stands behind the first `n` characters of `a` stands in `b` before
/// the same full stop.
proof fn lemma_skip_before_dot(a: Seq<char>, b: Seq<char>, n: int)
    requires
        a.len() < b.len(),
        b.take(a.len() as int) == a,
        b[a.len() as int] == '.',
        0 <= n <= a.len(),
    ensures
        a.skip(n).len() < b.skip(n).len(),
        b.skip(n).take(a.skip(n).len() as int) == a.skip(n),
        b.skip(n)[a.skip(n).len() as int] == '.',
{
    assert forall|t: int| 0 <= t < a.len() implies #[trigger] b[t] == a[t] by {
        assert(b.take(a.len() as int)[t] == b[t]);
    }
    assert(b.skip(n).take(a.skip(n).len() as int) =~= a.skip(n));
}

/// A full stop ends an episode marker: a text begins with the same episode
/// marker as what stands in it before a full stop.
proof fn lemma_episode_before_dot(a: Seq<char>, b: Seq<char>)
    requires
        a.len() < b.len(),
        b.take(a.len() as int) == a,
        b[a.len() as int] == '.',
    ensures
        episode_prefix(b) == episode_prefix(a),
{
    assert forall|t: int| 0 <= t < a.len() implies #[trigger] b[t] == a[t] by {
        assert(b.take(a.len() as int)[t] == b[t]);
    }
    if a.len() > 0 {
        assert(b[0] == a[0]);
        lemma_skip_before_dot(a, b, 1);
        lemma_run_before_dot(a.skip(1), b.skip(1));
        let m = digit_run(a.skip(1)) as int;
        assert(a.subrange(1, 1 + m) =~= b.subrange(1, 1 + m));
    }
}

/// A full stop ends a season-and-episode marker: a text begins with the same
/// marker as what stands in it before a full stop.
proof fn lemma_season_before_dot(a: Seq<char>, b: Seq<char>)
    requires
        a.len() < b.len(),
        b.take(a.len() as int) == a,
        b[a.len() as int] == '.',
    ensures
        season_prefix(b) == season_prefix(a),
{
    assert forall|t: int| 0 <= t < a.len() implies #[trigger] b[t] == a[t] by {
        assert(b.take(a.len() as int)[t] == b[t]);
    }
    if a.len() > 0 {
        assert(b[0] == a[0]);
        lemma_skip_before_dot(a, b, 1);
        lemma_run_before_dot(a.skip(1), b.skip(1));
        let k = digit_run(a.skip(1)) as int;
        assert(a.subrange(1, 1 + k) =~= b.subrange(1, 1 + k));
        lemma_skip_before_dot(a, b, 1 + k);
        lemma_episode_before_dot(a.skip(1 + k), b.skip(1 + k));
    }
}

/// A text that begins with a show name that holds a marker, and a full stop
/// behind it, parses to the tokens of the first marker in the show name.
pub proof fn lemma_title_marker_parses(title: Seq<char>, rest: Seq<char>, stem: Seq<char>)
    requires
        first_match(Pattern::SeasonEpisode, title) is Some,
        stem.len() > title.len(),
        stem.len() <= (title + seq!['.'] + rest).len(),
        stem == (title + seq!['.'] + rest).take(stem.len() as int),
    ensures
        parts_of(stem).season == Some(
            token(
                'S',
                season_prefix(
                    title.skip(first_match(Pattern::SeasonEpisode, title)->0 as int),
                )->0.season,
            ),
        ),
        parts_of(stem).episode == Some(
            token(
                'E',
                season_prefix(
                    title.skip(first_match(Pattern::SeasonEpisode, title)->0 as int),
                )->0.episode,
            ),
        ),
{
    let whole = title + seq!['.'] + rest;
    let i = first_match(Pattern::SeasonEpisode, title)->0 as int;
    let dot = title.len() as int;
    lemma_first_match(Pattern::SeasonEpisode, title);
    assert forall|t: int| 0 <= t < stem.len() implies #[trigger] stem[t] == whole[t] by {}
    assert(stem[dot] == '.') by {
        assert(whole[dot] == '.');
    }
    assert(stem.take(dot) =~= title) by {
        assert forall|t: int| 0 <= t < dot implies stem.take(dot)[t] == title[t] by {
            assert(stem[t] == whole[t]);
        }
    }
    lemma_skip_before_dot(title, stem, i);
    lemma_season_before_dot(title.skip(i), stem.skip(i));
    assert(matches_at(Pattern::SeasonEpisode, stem, i));
    assert forall|at: int| 0 <= at < i implies !#[trigger] matches_at(
        Pattern::SeasonEpisode,
        stem,
        at,
    ) by {
        lemma_skip_before_dot(title, stem, at);
        lemma_season_before_dot(title.skip(at), stem.skip(at));
        assert(!matches_at(Pattern::SeasonEpisode, title, at));
    }
    lemma_first_match_is(Pattern::SeasonEpisode, stem, i);
}

/// The show name that a parse reads out of a name holds, title-cased, no
/// marker, as long as case mapping keeps the parts that the characters play:
/// lower-casing on the text that the show name is taken from, upper-casing
/// on the first character of every segment of the show name.
pub proof fn parsed_show_holds_no_marker(directory: Seq<char>, name: Seq<char>)
    requires
        parsed(directory, name).season_prefix_part is Some,
        parsed(directory, name).show_name_part is Some,
        lowercase_keeps_parts(dot_joined(show_text(name))),
        title_keeps_parts(parsed(directory, name).show_name_part->0),
    ensures
        first_match(
            Pattern::SeasonEpisode,
            title_cased(parsed(directory, name).show_name_part->0),
        ) is None,
{
    let stem = working_stem(name);
    lemma_first_match(Pattern::SeasonEpisode, stem);
    let i = first_match(Pattern::SeasonEpisode, stem)->0 as int;
    lemma_before_first_marker(stem, i);
    lemma_normalized_marker_free(stem.take(i));
    lemma_title_marker_free(normalized(stem.take(i)));
    let title = title_cased(normalized(stem.take(i)));
    lemma_marker_free(title);
    lemma_first_match(Pattern::SeasonEpisode, title);
    if let Some(k) = first_match(Pattern::SeasonEpisode, title) {
        assert(matches_at(Pattern::SeasonEpisode, title, k as int));
    }
}

/// What parsing a planned name again gives: the tokens of the first marker
/// in the title-cased show name, and, where that holds none, the season and
/// episode tokens of the plan.
///
/// Two kinds of names are left out. One is a new name that is cut, when read
/// again, before the end of its tokens (see `marker_in_reach`). The other is a
/// fallback season of 1000 or more, where the fallback was applied: it is
/// too wide for a marker.
pub proof fn reparse_reads_first_marker(
    directory: Seq<char>,
    name: Seq<char>,
    fallback: FallbackText,
)
    requires
        planned_name(parsed(directory, name), fallback) is Ok,
        overrides(parsed(directory, name), fallback) ==> season_fits_marker(fallback),
        marker_in_reach(parsed(directory, name), fallback),
    ensures
        parsed(directory, planned_name(parsed(directory, name), fallback)->Ok_0).season_prefix_part
            == Some(
            tokens_read(
                title_cased(final_show(parsed(directory, name), fallback)->0),
                final_season(parsed(directory, name), fallback)->0,
                parsed(directory, name).episode_number_part->0,
            ).0,
        ),
        parsed(
            directory,
            planned_name(parsed(directory, name), fallback)->Ok_0,
        ).episode_number_part == Some(
            tokens_read(
                title_cased(final_show(parsed(directory, name), fallback)->0),
                final_season(parsed(directory, name), fallback)->0,
                parsed(directory, name).episode_number_part->0,
            ).1,
        ),
{
    let item = parsed(directory, name);
    let new_name = planned_name(item, fallback)->Ok_0;
    let show = final_show(item, fallback)->0;
    let season = final_season(item, fallback)->0;
    let episode = item.episode_number_part->0;
    // the new name is the head and, maybe, a tail behind a full stop
    let title = title_cased(show);
    let head = title + seq!['.'] + season + episode;
    let stem = new_stem(show, season, episode, item.remainder_part);
    let tail1: Seq<char> = match item.remainder_part {
        Some(r) if r.len() > 0 => seq!['.'] + r,
        _ => Seq::empty(),
    };
    assert(stem =~= head + tail1);
    let tail2: Seq<char> = if item.extension.len() == 0 {
        Seq::empty()
    } else {
        seq!['.'] + item.extension
    };
    let tail = tail1 + tail2;
    assert(new_name =~= head + tail);
    assert(tail.len() == 0 || tail[0] == '.') by {
        if tail1.len() > 0 {
            assert(tail[0] == tail1[0]);
        } else if tail2.len() > 0 {
            assert(tail[0] == tail2[0]);
        }
    }
    let again = working_stem(new_name);
    lemma_working_stem_is_prefix(new_name);
    parsed_tokens_are_canonical(directory, name);
    if first_match(Pattern::SeasonEpisode, title) is Some {
        let rest = season + episode + tail;
        assert(new_name =~= title + seq!['.'] + rest);
        assert(season.len() >= 1 && episode.len() >= 1) by {
            let e = choose|n: nat| n <= 999 && episode == #[trigger] token('E', n);
            assert(episode == token('E', e));
        }
        lemma_title_marker_parses(title, rest, again);
    } else {
        // the numbers behind the tokens
        let e = choose|n: nat| n <= 999 && episode == #[trigger] token('E', n);
        let s = choose|n: nat| n <= 999 && season == #[trigger] token('S', n);
        if overrides(item, fallback) {
            assert(season == fallback->Applied_season);
        } else {
            assert(item.season_prefix_part == Some(season));
        }
        assert(season == token('S', s) && s <= 999);
        lemma_first_match(Pattern::SeasonEpisode, title);
        lemma_marker_free(title);
        lemma_head_parses(title, s, e, tail, again);
    }
}

/// Parsing a planned name again gives the tokens that went into it: the
/// name that the planner gives a file parses to the season and episode
/// tokens of the plan.
///
/// Besides the names that `reparse_reads_first_marker` leaves out, the law
/// fails where the title-cased show name holds a marker of its own that
/// carries other tokens than the plan's: that marker comes first.
pub proof fn reparse_gives_same_tokens(
    directory: Seq<char>,
    name: Seq<char>,
    fallback: FallbackText,
)
    requires
        planned_name(parsed(directory, name), fallback) is Ok,
        overrides(parsed(directory, name), fallback) ==> season_fits_marker(fallback),
        marker_in_reach(parsed(directory, name), fallback),
        tokens_read(
            title_cased(final_show(parsed(directory, name), fallback)->0),
            final_season(parsed(directory, name), fallback)->0,
            parsed(directory, name).episode_number_part->0,
        ) == (
            final_season(parsed(directory, name), fallback)->0,
            parsed(directory, name).episode_number_part->0,
        ),
    ensures
        parsed(directory, planned_name(parsed(directory, name), fallback)->Ok_0).season_prefix_part
            == final_season(parsed(directory, name), fallback),
        parsed(
            directory,
            planned_name(parsed(directory, name), fallback)->Ok_0,
        ).episode_number_part == parsed(directory, name).episode_number_part,
{
    reparse_reads_first_marker(directory, name, fallback);
}

/// The extension that a parse splits off holds no full stop.
pub proof fn lemma_extension_has_no_dot(name: Seq<char>)
    ensures
        forall|i: int| 0 <= i < extension_of(name).len() ==> #[trigger] extension_of(name)[i] != '.',
{
    lemma_trailing(name, CharClass::NonDot);
    let ext = extension_of(name);
    if extension_dot(name) is Some {
        let d = extension_dot(name)->0;
        assert forall|i: int| 0 <= i < ext.len() implies #[trigger] ext[i] != '.' by {
            assert(ext[i] == name[d + 1 + i]);
            assert(CharClass::NonDot.has(name[d + 1 + i]));
        }
    }
}

/// A new name keeps its tokens in reach where the file has an extension and
/// the new stem holds no release suffix.
pub proof fn lemma_marker_in_reach(item: ParsedText, fallback: FallbackText)
    requires
        planned_name(item, fallback) is Ok,
        item.extension.len() > 0,
        forall|i: int| 0 <= i < item.extension.len() ==> #[trigger] item.extension[i] != '.',
        first_match(
            Pattern::ReleaseSuffix,
            new_stem(
                final_show(item, fallback)->0,
                final_season(item, fallback)->0,
                item.episode_number_part->0,
                item.remainder_part,
            ),
        ) is None,
    ensures
        marker_in_reach(item, fallback),
{
    let show = final_show(item, fallback)->0;
    let season = final_season(item, fallback)->0;
    let episode = item.episode_number_part->0;
    let stem = new_stem(show, season, episode, item.remainder_part);
    let ext = item.extension;
    let name = stem + seq!['.'] + ext;
    assert(planned_name(item, fallback)->Ok_0 == name);
    let head = name_head(show, season, episode);
    assert(stem.len() >= head.len());
    assert(head.len() >= 1);
    assert forall|i: int| name.len() - ext.len() <= i < name.len() implies CharClass::NonDot.has(
        #[trigger] name[i],
    ) by {
        assert(name[i] == ext[i - stem.len() - 1]);
    }
    assert(name[name.len() - ext.len() - 1] == '.');
    lemma_trailing_is(name, CharClass::NonDot, ext.len() as int);
    assert(name.len() >= 3);
    assert(seq!['.', '.'].len() == 2);
    assert(extension_dot(name) == Some(stem.len() as int));
    assert(stem_of(name) =~= stem);
}

/// The plain case of the law above: a file with an extension whose name
/// gives show name, season and episode gets a new name that parses to the
/// same season and episode tokens, unless the new stem holds a release
/// suffix. This holds as long as case mapping keeps the parts that the
/// characters of the show name play in a marker (see
/// `parsed_show_holds_no_marker`): a sharp s in front of a segment, say,
/// becomes `SS` and may begin a marker of its own.
pub proof fn complete_name_reparses(directory: Seq<char>, name: Seq<char>, fallback: FallbackText)
    requires
        !parsed(directory, name).needs_fallback,
        extension_of(name).len() > 0,
        first_match(
            Pattern::ReleaseSuffix,
            new_stem(
                parsed(directory, name).show_name_part->0,
                parsed(directory, name).season_prefix_part->0,
                parsed(directory, name).episode_number_part->0,
                parsed(directory, name).remainder_part,
            ),
        ) is None,
        lowercase_keeps_parts(dot_joined(show_text(name))),
        title_keeps_parts(parsed(directory, name).show_name_part->0),
    ensures
        planned_name(parsed(directory, name), fallback) is Ok,
        parsed(directory, planned_name(parsed(directory, name), fallback)->Ok_0).season_prefix_part
            == parsed(directory, name).season_prefix_part,
        parsed(
            directory,
            planned_name(parsed(directory, name), fallback)->Ok_0,
        ).episode_number_part == parsed(directory, name).episode_number_part,
{
    let item = parsed(directory, name);
    lemma_extension_has_no_dot(name);
    lemma_marker_in_reach(item, fallback);
    parsed_show_holds_no_marker(directory, name);
    reparse_gives_same_tokens(directory, name, fallback);
}

} // verus!
