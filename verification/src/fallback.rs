//! The fallback: a show name and a season, given from outside for the files
//! whose names do not hold them.

use crate::chars::{chars_of, string_of};
use crate::normalize::{normalize_chars, normalized};
use crate::parser::{text_of, ParsedInfo, ParsedText};
use crate::text::{trim_start, trimmed_start, CharClass};
use crate::tokens::{number_of, read_number, render_token_chars, token};
use vstd::prelude::*;

verus! {

/// What is known from outside about show and season.
#[derive(Clone, Debug, PartialEq, Eq)]
pub enum Fallback {
    /// No file asked for a fallback, so none was obtained.
    Unused,
    /// A season was given, and maybe a show name: they replace what the name
    /// of a file in need gave.
    Applied {
        /// The show name in normal form, where one was given.
        show: Option<String>,
        /// The season token.
        season: String,
    },
    /// The season given could not be read: no fallback applies in this run.
    Unusable,
}

/// The texts of a `Fallback`.
pub enum FallbackText {
    Unused,
    Applied { show: Option<Seq<char>>, season: Seq<char> },
    Unusable,
}

impl View for Fallback {
    type V = FallbackText;

    open spec fn view(&self) -> FallbackText {
        match self {
            Fallback::Unused => FallbackText::Unused,
            Fallback::Applied { show, season } => FallbackText::Applied {
                show: text_of(*show),
                season: season@,
            },
            Fallback::Unusable => FallbackText::Unusable,
        }
    }
}

/// The season number in a text such as `Season 3`: what stands before the
/// first digit is passed over, and the rest must be a number.
pub open spec fn season_number(text: Seq<char>) -> Option<nat> {
    number_of(trim_start(text, CharClass::NonDigit))
}

/// The fallback that the two answers give. A season text with a number in it
/// makes the fallback apply, with the normal form of the show text where that
/// text is not empty. Any other season text makes it unusable.
pub open spec fn resolved(show_text: Seq<char>, season_text: Seq<char>) -> FallbackText {
    match season_number(season_text) {
        Some(n) => FallbackText::Applied {
            show: if show_text.len() == 0 {
                None
            } else {
                Some(normalized(show_text))
            },
            season: token('S', n),
        },
        None => FallbackText::Unusable,
    }
}

/// Some item asks for a fallback.
pub open spec fn some_needs_fallback(items: Seq<ParsedText>) -> bool {
    exists|i: int| 0 <= i < items.len() && (#[trigger] items[i]).needs_fallback
}

/// The texts of the items.
pub open spec fn item_texts(items: Seq<ParsedInfo>) -> Seq<ParsedText> {
    Seq::new(items.len(), |i: int| items[i]@)
}

/// Tells whether any item asks for a fallback. Only then are show name and
/// season to be obtained.
pub fn any_needs_fallback(items: &Vec<ParsedInfo>) -> (b: bool)
    ensures
        b == some_needs_fallback(item_texts(items@)),
{
    let mut i: usize = 0;
    while i < items.len()
        invariant
            i <= items.len(),
            forall|j: int| 0 <= j < i ==> !(#[trigger] item_texts(items@)[j]).needs_fallback,
        decreases items.len() - i,
    {
        if items[i].needs_fallback {
            assert(item_texts(items@)[i as int].needs_fallback);
            return true;
        }
        i += 1;
    }
    false
}

/// Reads the two answers. The show text, unless empty, is normalized. The
/// season text is read from its first digit on and must then be a number that
/// fits `u32`; if it is not, the fallback is unusable.
pub fn resolve_fallback(show_text: &str, season_text: &str) -> (f: Fallback)
    ensures
        f@ == resolved(show_text@, season_text@),
{
    let season_chars = chars_of(season_text);
    let digits = trimmed_start(&season_chars, CharClass::NonDigit);
    match read_number(&digits) {
        Some(n) => {
            let show_chars = chars_of(show_text);
            let show = if show_chars.len() == 0 {
                None
            } else {
                Some(string_of(&normalize_chars(&show_chars)))
            };
            Fallback::Applied { show, season: string_of(&render_token_chars('S', n)) }
        },
        None => Fallback::Unusable,
    }
}

} // verus!
