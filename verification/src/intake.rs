//! The small rules at the edge of a run: which files are taken in, how an
//! answer to a prompt is read, and what counts as a go-ahead.

use crate::chars::{chars_of, lower_case, lowercase_of, string_of};
use crate::text::extend;
use crate::text::{same, trim, trimmed, CharClass};
use vstd::prelude::*;

verus! {

/// The extensions of the files that are taken in, in lower case.
pub open spec fn video_extensions() -> Seq<Seq<char>> {
    seq![
        seq!['m', 'k', 'v'],
        seq!['m', 'p', '4'],
        seq!['a', 'v', 'i'],
        seq!['m', 'o', 'v'],
        seq!['w', 'm', 'v'],
        seq!['f', 'l', 'v'],
        seq!['w', 'e', 'b', 'm'],
        seq!['m', 'p', 'e', 'g'],
        seq!['m', 'p', 'g'],
        seq!['t', 's'],
        seq!['m', '2', 't', 's'],
        seq!['v', 'o', 'b'],
    ]
}

/// What an answer to a prompt comes to: the answer without the whitespace at
/// its ends, or the default where that is empty and there is a default.
pub open spec fn answer_text(input: Seq<char>, default: Option<Seq<char>>) -> Seq<char> {
    let answer = trim(input, CharClass::Whitespace);
    match default {
        Some(d) if answer.len() == 0 => d,
        _ => answer,
    }
}

/// The answer is a go-ahead: `y` or `yes`, in any case, whitespace at the
/// ends aside.
pub open spec fn is_go_ahead(answer: Seq<char>) -> bool {
    let word = lowercase_of(trim(answer, CharClass::Whitespace));
    word == seq!['y'] || word == seq!['y', 'e', 's']
}

fn extension_list() -> (list: Vec<Vec<char>>)
    ensures
        list@.len() == video_extensions().len(),
        forall|i: int| 0 <= i < list@.len() ==> (#[trigger] list@[i])@ == video_extensions()[i],
{
    let list: Vec<Vec<char>> = vec![
        vec!['m', 'k', 'v'],
        vec!['m', 'p', '4'],
        vec!['a', 'v', 'i'],
        vec!['m', 'o', 'v'],
        vec!['w', 'm', 'v'],
        vec!['f', 'l', 'v'],
        vec!['w', 'e', 'b', 'm'],
        vec!['m', 'p', 'e', 'g'],
        vec!['m', 'p', 'g'],
        vec!['t', 's'],
        vec!['m', '2', 't', 's'],
        vec!['v', 'o', 'b'],
    ];
    assert forall|i: int| 0 <= i < list@.len() implies (#[trigger] list@[i])@
        == video_extensions()[i] by {
        assert(list@[i]@ =~= video_extensions()[i]);
    }
    list
}

/// Tells whether a file with this extension is taken in: whether the
/// extension, lower-cased, is one of the video extensions.
pub fn is_video_extension(extension: &str) -> (b: bool)
    ensures
        b == video_extensions().contains(lowercase_of(extension@)),
{
    let ext = lower_case(&chars_of(extension));
    let list = extension_list();
    let mut i: usize = 0;
    while i < list.len()
        invariant
            i <= list.len(),
            ext@ == lowercase_of(extension@),
            list@.len() == video_extensions().len(),
            forall|j: int| 0 <= j < list@.len() ==> (#[trigger] list@[j])@ == video_extensions()[j],
            forall|j: int| 0 <= j < i ==> video_extensions()[j] != ext@,
        decreases list.len() - i,
    {
        if same(&list[i], &ext) {
            assert(video_extensions()[i as int] == ext@);
            return true;
        }
        i += 1;
    }
    false
}

/// The line that asks for a value: the prompt text, the default in brackets
/// where there is one that is not empty, and a colon.
pub open spec fn prompt_text_of(prompt_text: Seq<char>, default: Option<Seq<char>>) -> Seq<char> {
    match default {
        Some(d) if d.len() > 0 => prompt_text + seq![' ', '[', 'D', 'e', 'f', 'a', 'u', 'l', 't', ':', ' ']
            + d + seq![']', ':', ' '],
        _ => prompt_text + seq![':', ' '],
    }
}

/// Words the line that asks for a value: `Text [Default: value]: ` where a
/// default is given and not empty, `Text: ` in every other case.
pub fn prompt_line(prompt_text: &str, default: Option<&str>) -> (line: String)
    ensures
        line@ == prompt_text_of(
            prompt_text@,
            match default {
                Some(d) => Some(d@),
                None => None,
            },
        ),
{
    let mut line = chars_of(prompt_text);
    let ghost asked = line@;
    let shown: Vec<char> = match default {
        Some(d) => chars_of(d),
        None => Vec::new(),
    };
    if shown.len() > 0 {
        let open: Vec<char> = vec![' ', '[', 'D', 'e', 'f', 'a', 'u', 'l', 't', ':', ' '];
        let close: Vec<char> = vec![']', ':', ' '];
        extend(&mut line, &open);
        extend(&mut line, &shown);
        extend(&mut line, &close);
        assert(line@ =~= asked + seq![' ', '[', 'D', 'e', 'f', 'a', 'u', 'l', 't', ':', ' ']
            + shown@ + seq![']', ':', ' ']);
    } else {
        line.push(':');
        line.push(' ');
        assert(line@ =~= asked + seq![':', ' ']);
    }
    string_of(&line)
}

/// Reads the answer to a prompt: the whitespace at its ends is dropped, and
/// an answer that is then empty gives way to the default, if there is one.
pub fn answer_or_default(input: &str, default: Option<&str>) -> (answer: String)
    ensures
        answer@ == answer_text(
            input@,
            match default {
                Some(d) => Some(d@),
                None => None,
            },
        ),
{
    let given = trimmed(&chars_of(input), CharClass::Whitespace);
    match default {
        Some(d) => {
            if given.len() == 0 {
                d.to_owned()
            } else {
                string_of(&given)
            }
        },
        None => string_of(&given),
    }
}

/// Tells whether the answer to the last question is a go-ahead: `y` or
/// `yes`, in any case; anything else cancels.
pub fn is_confirmation(answer: &str) -> (b: bool)
    ensures
        b == is_go_ahead(answer@),
{
    let word = lower_case(&trimmed(&chars_of(answer), CharClass::Whitespace));
    let n: usize = word.len();
    if n == 1 && word[0] == 'y' {
        assert(word@ =~= seq!['y']);
        true
    } else if n == 3 && word[0] == 'y' && word[1] == 'e' && word[2] == 's' {
        assert(word@ =~= seq!['y', 'e', 's']);
        true
    } else {
        assert(seq!['y'].len() == 1 && seq!['y'][0] == 'y');
        assert(seq!['y', 'e', 's'].len() == 3 && seq!['y', 'e', 's'][0] == 'y' && seq![
            'y',
            'e',
            's',
        ][1] == 'e' && seq!['y', 'e', 's'][2] == 's');
        false
    }
}

} // verus!
