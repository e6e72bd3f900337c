use episode_renamer::markers::{find_first, Pattern};
use regex::Regex;

const SEASON_EPISODE: &str = r"(?i)S(\d{1,3})E(\d{1,3})";
const EPISODE: &str = r"(?i)E(\d{1,3})";
const RELEASE_SUFFIX: &str = r"-(?:[^-]+)(\[[^\]]+\])$";

fn engine_span(pattern: &str, text: &str) -> Option<(usize, usize)> {
    let found = Regex::new(pattern).unwrap().find(text)?;
    Some((text[..found.start()].chars().count(), text[..found.end()].chars().count()))
}

fn samples() -> Vec<&'static str> {
    vec![
        "",
        "S",
        "E",
        "S1",
        "E1",
        "S1E",
        "S1E2",
        "s1e2",
        "S01E02",
        "S001E002",
        "S0001E02",
        "S01E0002",
        "S123E7",
        "S1234E7",
        "SS1E2",
        "S1S2E3",
        "S1EE2",
        "S01 E02",
        "S01.E02",
        "Some Show - S2E14",
        "show.name.s01e02.720p",
        "Show.S01E02.S03E04",
        "Show.E01",
        "Show.E1",
        "Season 1 Episode 2",
        "The.Release2.E12345",
        "e9",
        "xE99x",
        "random title [1080p]",
        "Show.S01E02.720p-GROUP[rartv]",
        "Show S01E02 -GRP[x]",
        "a-[x]",
        "a-b[]",
        "a-b[c]",
        "-b[c]",
        "x-a-b[c]",
        "x-a[b]c]",
        "x-a[b[c]",
        "x-a]b[c]",
        "x-a[b]-c[d]",
        "x-a[b-c]",
        "x-a[b]c",
        "x-ab",
        "x-[[]]",
        "x-a[[]",
        "x--a[b]",
        "-----",
        "[]-[]-[]",
        "a-b[c]\n",
        "a-\n[\n]",
        "Pokémon S01E02 épisode",
        "Ünïcödé-grüppe[qüelle]",
        "日本語 S1E2 字幕-組[源]",
    ]
}

#[test]
fn season_episode_agrees_with_the_pattern_engine() {
    for text in samples() {
        assert_eq!(
            find_first(Pattern::SeasonEpisode, text),
            engine_span(SEASON_EPISODE, text),
            "on {:?}",
            text
        );
    }
}

#[test]
fn episode_agrees_with_the_pattern_engine() {
    for text in samples() {
        assert_eq!(find_first(Pattern::Episode, text), engine_span(EPISODE, text), "on {:?}", text);
    }
}

#[test]
fn release_suffix_agrees_with_the_pattern_engine() {
    for text in samples() {
        assert_eq!(
            find_first(Pattern::ReleaseSuffix, text),
            engine_span(RELEASE_SUFFIX, text),
            "on {:?}",
            text
        );
    }
}

#[test]
fn agrees_with_the_pattern_engine_on_all_short_texts() {
    let alphabet = ['S', 'e', '1', '-', '[', ']', 'x'];
    let mut texts: Vec<String> = vec![String::new()];
    let mut from = 0;
    for _ in 0..6 {
        let upto = texts.len();
        for i in from..upto {
            for c in alphabet {
                let mut longer = texts[i].clone();
                longer.push(c);
                texts.push(longer);
            }
        }
        from = upto;
    }
    let season_episode = Regex::new(SEASON_EPISODE).unwrap();
    let episode = Regex::new(EPISODE).unwrap();
    let suffix = Regex::new(RELEASE_SUFFIX).unwrap();
    for text in &texts {
        let a = season_episode.find(text).map(|m| (m.start(), m.end()));
        assert_eq!(find_first(Pattern::SeasonEpisode, text), a, "on {:?}", text);
        let b = episode.find(text).map(|m| (m.start(), m.end()));
        assert_eq!(find_first(Pattern::Episode, text), b, "on {:?}", text);
        let c = suffix.find(text).map(|m| (m.start(), m.end()));
        assert_eq!(find_first(Pattern::ReleaseSuffix, text), c, "on {:?}", text);
    }
}

#[test]
fn finds_the_first_of_several_markers() {
    assert_eq!(find_first(Pattern::SeasonEpisode, "a.S01E02.S03E04"), Some((2, 8)));
    assert_eq!(find_first(Pattern::Episode, "xE1yE2"), Some((1, 3)));
}

#[test]
fn takes_up_to_three_digits() {
    assert_eq!(find_first(Pattern::SeasonEpisode, "S1E2345"), Some((0, 6)));
    assert_eq!(find_first(Pattern::SeasonEpisode, "S123E4"), Some((0, 6)));
    assert_eq!(find_first(Pattern::SeasonEpisode, "S1234E5"), None);
    assert_eq!(find_first(Pattern::Episode, "E12345"), Some((0, 4)));
}

#[test]
fn release_suffix_reaches_to_the_end() {
    assert_eq!(find_first(Pattern::ReleaseSuffix, "Show-GROUP[src]"), Some((4, 15)));
    assert_eq!(find_first(Pattern::ReleaseSuffix, "Show-GROUP[src] "), None);
    assert_eq!(find_first(Pattern::ReleaseSuffix, "Show[src]"), None);
}

#[test]
fn counts_places_in_characters() {
    assert_eq!(find_first(Pattern::SeasonEpisode, "é S1E2"), Some((2, 6)));
}

#[test]
fn takes_ascii_digits_and_ascii_letters_only() {
    // the pattern engine also takes digits of other scripts and the long s
    assert!(Regex::new(SEASON_EPISODE).unwrap().is_match("S\u{661}E\u{662}"));
    assert!(Regex::new(SEASON_EPISODE).unwrap().is_match("\u{17f}1E2"));
    assert_eq!(find_first(Pattern::SeasonEpisode, "S\u{661}E\u{662}"), None);
    assert_eq!(find_first(Pattern::SeasonEpisode, "\u{17f}1E2"), None);
    assert_eq!(find_first(Pattern::Episode, "E\u{662}"), None);
}
