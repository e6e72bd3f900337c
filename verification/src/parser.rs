//! The file-name parser: from one file name to its show name, season token,
//! episode token and trailing descriptor, as far as the name gives them.

use crate::chars::{chars_of, string_of};
use crate::markers::{
    episode_prefix, find_first_chars, first_episode_mark, first_match, first_season_mark,
    lemma_episode_number, lemma_first_match, lemma_mark_numbers, season_prefix, Pattern,
};
use crate::normalize::{normalize_chars, normalized};
use crate::paths::{FilePath, PathText};
use crate::text::{
    lemma_trailing, slice, trailing, trailing_len, trim_end, trimmed_end, CharClass,
};
use crate::tokens::{render_token_chars, token};
use vstd::prelude::*;

verus! {

/// Why a directory entry was not parsed.
#[derive(Clone, Copy, Debug, PartialEq, Eq)]
pub enum ParseError {
    /// The entry is a directory or a special entry, no regular file.
    NotAFile,
    /// The entry has no final component to take a name from.
    NoFileName,
}

/// What one file name gave.
#[derive(Clone, Debug, PartialEq, Eq)]
pub struct ParsedInfo {
    /// Where the file lies; its identity.
    pub original_path: FilePath,
    /// The file's name, as it is shown.
    pub original_filename: String,
    /// The extension as the name has it, case kept; empty where it has none.
    pub extension: String,
    /// The show name in normal form, where the name gives one.
    pub show_name_part: Option<String>,
    /// The season token, `S` and at least two digits.
    pub season_prefix_part: Option<String>,
    /// The episode token, `E` and at least two digits.
    pub episode_number_part: Option<String>,
    /// What stands behind the marker, in normal form.
    pub remainder_part: Option<String>,
    /// The name gave no show name or no season: they must come from outside.
    pub needs_fallback: bool,
}

/// The texts of a `ParsedInfo`.
pub struct ParsedText {
    pub original_path: PathText,
    pub original_filename: Seq<char>,
    pub extension: Seq<char>,
    pub show_name_part: Option<Seq<char>>,
    pub season_prefix_part: Option<Seq<char>>,
    pub episode_number_part: Option<Seq<char>>,
    pub remainder_part: Option<Seq<char>>,
    pub needs_fallback: bool,
}

/// The text of an optional string.
pub open spec fn text_of(s: Option<String>) -> Option<Seq<char>> {
    match s {
        Some(t) => Some(t@),
        None => None,
    }
}

impl View for ParsedInfo {
    type V = ParsedText;

    open spec fn view(&self) -> ParsedText {
        ParsedText {
            original_path: self.original_path@,
            original_filename: self.original_filename@,
            extension: self.extension@,
            show_name_part: text_of(self.show_name_part),
            season_prefix_part: text_of(self.season_prefix_part),
            episode_number_part: text_of(self.episode_number_part),
            remainder_part: text_of(self.remainder_part),
            needs_fallback: self.needs_fallback,
        }
    }
}

/// Where the extension of `name` is split off: the place of its last full
/// stop, unless the name has none, has it in front only, or is `..`.
pub open spec fn extension_dot(name: Seq<char>) -> Option<int> {
    let after = trailing(name, CharClass::NonDot);
    if after == name.len() || after == name.len() - 1 || name == seq!['.', '.'] {
        None
    } else {
        Some(name.len() - after - 1)
    }
}

/// The stem of a file name: the name without its final extension.
pub open spec fn stem_of(name: Seq<char>) -> Seq<char> {
    match extension_dot(name) {
        Some(d) => name.take(d),
        None => name,
    }
}

/// The final extension of a file name, without its full stop; empty where
/// the name has none.
pub open spec fn extension_of(name: Seq<char>) -> Seq<char> {
    match extension_dot(name) {
        Some(d) => name.skip(d + 1),
        None => Seq::<char>::empty(),
    }
}

/// `stem` without its release suffix: cut where the first release suffix
/// begins, and trimmed of the whitespace then left at its end.
pub open spec fn without_release_suffix(stem: Seq<char>) -> Seq<char> {
    match first_match(Pattern::ReleaseSuffix, stem) {
        Some(i) => trim_end(stem.take(i as int), CharClass::Whitespace),
        None => stem,
    }
}

/// `Some(s)` for a text of at least one character.
pub open spec fn nonempty(s: Seq<char>) -> Option<Seq<char>> {
    if s.len() == 0 {
        None
    } else {
        Some(s)
    }
}

/// What a stem gives.
pub struct StemParts {
    pub show: Option<Seq<char>>,
    pub season: Option<Seq<char>>,
    pub episode: Option<Seq<char>>,
    pub remainder: Option<Seq<char>>,
    pub needs_fallback: bool,
}

/// The parts of a stem whose release suffix is off.
///
/// Where the stem holds a season-and-episode marker, the first one gives both
/// tokens; the normal form of what stands before it is the show name, that of
/// what stands behind it the remainder, each only if it is not empty. Without
/// such a marker the first episode marker, if any, gives the episode token and
/// splits the stem in the same way. Without either the whole stem is the show
/// name at best. A fallback is needed wherever show name or season is missing.
pub open spec fn parts_of(stem: Seq<char>) -> StemParts {
    match first_match(Pattern::SeasonEpisode, stem) {
        Some(i) => {
            let mark = season_prefix(stem.skip(i as int)).unwrap();
            let show = nonempty(normalized(stem.take(i as int)));
            StemParts {
                show,
                season: Some(token('S', mark.season)),
                episode: Some(token('E', mark.episode)),
                remainder: nonempty(normalized(stem.skip((i + mark.len) as int))),
                needs_fallback: show is None,
            }
        },
        None => match first_match(Pattern::Episode, stem) {
            Some(i) => {
                let mark = episode_prefix(stem.skip(i as int)).unwrap();
                StemParts {
                    show: nonempty(normalized(stem.take(i as int))),
                    season: None,
                    episode: Some(token('E', mark.episode)),
                    remainder: nonempty(normalized(stem.skip((i + mark.len) as int))),
                    needs_fallback: true,
                }
            },
            None => StemParts {
                show: nonempty(normalized(stem)),
                season: None,
                episode: None,
                remainder: None,
                needs_fallback: true,
            },
        },
    }
}

/// What the file `name` in `directory` parses to.
pub open spec fn parsed(directory: Seq<char>, name: Seq<char>) -> ParsedText {
    let parts = parts_of(without_release_suffix(stem_of(name)));
    ParsedText {
        original_path: PathText { directory, name },
        original_filename: name,
        extension: extension_of(name),
        show_name_part: parts.show,
        season_prefix_part: parts.season,
        episode_number_part: parts.episode,
        remainder_part: parts.remainder,
        needs_fallback: parts.needs_fallback,
    }
}

/// A parse never leaves show name and season both in place and still asks for
/// a fallback, and never does without a fallback where one of them is missing.
/// A season never comes without an episode, and a show name is never empty.
pub proof fn needs_fallback_when_incomplete(directory: Seq<char>, name: Seq<char>)
    ensures
        parsed(directory, name).needs_fallback <==> (parsed(directory, name).show_name_part is None
            || parsed(directory, name).season_prefix_part is None),
        parsed(directory, name).season_prefix_part is Some ==> parsed(
            directory,
            name,
        ).episode_number_part is Some,
        parsed(directory, name).show_name_part matches Some(show) ==> show.len() > 0,
        parsed(directory, name).remainder_part matches Some(rest) ==> rest.len() > 0,
{
}

/// The tokens of a parse are canonical: the letter and the digits, padded to
/// two, of a number below 1000.
pub proof fn parsed_tokens_are_canonical(directory: Seq<char>, name: Seq<char>)
    ensures
        parsed(directory, name).season_prefix_part matches Some(season) ==> exists|n: nat|
            n <= 999 && season == #[trigger] token('S', n),
        parsed(directory, name).episode_number_part matches Some(episode) ==> exists|n: nat|
            n <= 999 && episode == #[trigger] token('E', n),
{
    let stem = without_release_suffix(stem_of(name));
    lemma_first_match(Pattern::SeasonEpisode, stem);
    lemma_first_match(Pattern::Episode, stem);
    match first_match(Pattern::SeasonEpisode, stem) {
        Some(i) => {
            lemma_mark_numbers(stem.skip(i as int));
            let mark = season_prefix(stem.skip(i as int))->0;
            assert(mark.season <= 999 && parsed(directory, name).season_prefix_part->0 == token(
                'S',
                mark.season,
            ));
            assert(mark.episode <= 999 && parsed(directory, name).episode_number_part->0
                == token('E', mark.episode));
        },
        None => match first_match(Pattern::Episode, stem) {
            Some(i) => {
                lemma_episode_number(stem.skip(i as int));
                let mark = episode_prefix(stem.skip(i as int))->0;
                assert(mark.episode <= 999 && parsed(directory, name).episode_number_part->0
                    == token('E', mark.episode));
            },
            None => {},
        },
    }
}

/// The normal form of the piece of `stem` from `from` up to `to`, if it is not
/// empty.
fn normal_part(stem: &Vec<char>, from: usize, to: usize) -> (r: Option<String>)
    requires
        from <= to <= stem.len(),
    ensures
        text_of(r) == nonempty(normalized(stem@.subrange(from as int, to as int))),
        from == 0 ==> text_of(r) == nonempty(normalized(stem@.take(to as int))),
        to == stem.len() ==> text_of(r) == nonempty(normalized(stem@.skip(from as int))),
        from == 0 && to == stem.len() ==> text_of(r) == nonempty(normalized(stem@)),
{
    proof {
        if from == 0 {
            assert(stem@.take(to as int) =~= stem@.subrange(0, to as int));
            if to == stem.len() {
                assert(stem@.take(to as int) =~= stem@);
            }
        }
        if to == stem.len() {
            assert(stem@.skip(from as int) =~= stem@.subrange(from as int, to as int));
        }
    }
    let v = normalize_chars(&slice(stem, from, to));
    if v.len() == 0 {
        None
    } else {
        Some(string_of(&v))
    }
}

/// Splits a file name into stem and extension.
fn split_extension(name: &Vec<char>) -> (r: (Vec<char>, Vec<char>))
    ensures
        r.0@ == stem_of(name@),
        r.1@ == extension_of(name@),
{
    let n: usize = name.len();
    let after: usize = trailing_len(name, CharClass::NonDot);
    proof {
        lemma_trailing(name@, CharClass::NonDot);
    }
    let dots_only: bool = n == 2 && name[0] == '.' && name[1] == '.';
    if dots_only {
        assert(name@ =~= seq!['.', '.']);
    } else {
        assert(seq!['.', '.'].len() == 2 && seq!['.', '.'][0] == '.' && seq!['.', '.'][1] == '.');
    }
    if after == n || after == n - 1 || dots_only {
        let stem = slice(name, 0, n);
        assert(stem@ =~= name@);
        (stem, Vec::new())
    } else {
        let d: usize = n - after - 1;
        (slice(name, 0, d), slice(name, d + 1, n))
    }
}

/// Cuts the release suffix off a stem.
fn strip_release_suffix(stem: Vec<char>) -> (r: Vec<char>)
    ensures
        r@ == without_release_suffix(stem@),
{
    match find_first_chars(Pattern::ReleaseSuffix, &stem) {
        Some((start, _)) => {
            let kept = slice(&stem, 0, start);
            trimmed_end(&kept, CharClass::Whitespace)
        },
        None => stem,
    }
}

/// Parses one directory entry.
///
/// `is_file` says whether the entry is a regular file, `file_name` is its
/// final component (empty where it has none) and `directory` the place it
/// lies in. A name that cannot be read in full still parses: what is missing
/// is `None`, and `needs_fallback` is set where show name or season is.
pub fn parse_filename(directory: &str, file_name: &str, is_file: bool) -> (r: Result<
    ParsedInfo,
    ParseError,
>)
    ensures
        !is_file ==> r == Err::<ParsedInfo, ParseError>(ParseError::NotAFile),
        is_file && file_name@.len() == 0 ==> r == Err::<ParsedInfo, ParseError>(
            ParseError::NoFileName,
        ),
        is_file && file_name@.len() > 0 ==> r is Ok && r->Ok_0@ == parsed(directory@, file_name@),
{
    if !is_file {
        return Err(ParseError::NotAFile);
    }
    let name = chars_of(file_name);
    if name.len() == 0 {
        return Err(ParseError::NoFileName);
    }
    let (raw_stem, extension) = split_extension(&name);
    let stem = strip_release_suffix(raw_stem);
    let mut show_name_part: Option<String> = None;
    let mut season_prefix_part: Option<String> = None;
    let mut episode_number_part: Option<String> = None;
    let mut remainder_part: Option<String> = None;
    let mut needs_fallback: bool = true;
    match first_season_mark(&stem) {
        Some((start, end, season, episode)) => {
            show_name_part = normal_part(&stem, 0, start);
            season_prefix_part = Some(string_of(&render_token_chars('S', season)));
            episode_number_part = Some(string_of(&render_token_chars('E', episode)));
            remainder_part = normal_part(&stem, end, stem.len());
            needs_fallback = show_name_part.is_none();
        },
        None => match first_episode_mark(&stem) {
            Some((start, end, episode)) => {
                show_name_part = normal_part(&stem, 0, start);
                episode_number_part = Some(string_of(&render_token_chars('E', episode)));
                remainder_part = normal_part(&stem, end, stem.len());
            },
            None => {
                show_name_part = normal_part(&stem, 0, stem.len());
            },
        },
    }
    Ok(
        ParsedInfo {
            original_path: FilePath::new(directory, file_name),
            original_filename: file_name.to_owned(),
            extension: string_of(&extension),
            show_name_part,
            season_prefix_part,
            episode_number_part,
            remainder_part,
            needs_fallback,
        },
    )
}

} // verus!
