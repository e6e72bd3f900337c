//! Title-casing of a dot-joined show name.

use crate::chars::{chars_of, std_uppercase, string_of, unicode_uppercase};
use crate::text::extend;
use vstd::prelude::*;

verus! {

/// The segments of `s` between its full stops. A text without a full stop is
/// one segment; a full stop at an end, or next to another, gives an empty
/// segment.
pub open spec fn split_dots(s: Seq<char>) -> Seq<Seq<char>>
    decreases s.len(),
{
    if s.len() == 0 {
        seq![Seq::<char>::empty()]
    } else {
        let before = split_dots(s.drop_last());
        if s.last() == '.' {
            before.push(Seq::<char>::empty())
        } else {
            before.drop_last().push(before.last().push(s.last()))
        }
    }
}

/// The segments joined by single full stops.
pub open spec fn join_dots(words: Seq<Seq<char>>) -> Seq<char>
    decreases words.len(),
{
    if words.len() == 0 {
        Seq::<char>::empty()
    } else if words.len() == 1 {
        words[0]
    } else {
        join_dots(words.drop_last()) + seq!['.'] + words.last()
    }
}

/// The words that stay lower-case unless they come first.
pub open spec fn is_stopword(w: Seq<char>) -> bool {
    w == seq!['t', 'h', 'e'] || w == seq!['o', 'f'] || w == seq!['a', 'n', 'd']
}

/// `w` with its first character upper-cased: that character gives way to
/// what upper-casing makes of it, which may be more than one character.
pub open spec fn capitalized(w: Seq<char>) -> Seq<char> {
    if w.len() == 0 {
        w
    } else {
        unicode_uppercase(w[0]) + w.skip(1)
    }
}

/// The title form of the segment `w` that stands at `index`: capitalized,
/// unless it is a stopword behind the first segment.
pub open spec fn title_word(index: int, w: Seq<char>) -> Seq<char> {
    if index == 0 || !is_stopword(w) {
        capitalized(w)
    } else {
        w
    }
}

/// The title forms of the first `n` segments, the empty ones left out.
pub open spec fn title_words(segments: Seq<Seq<char>>, n: nat) -> Seq<Seq<char>>
    decreases n,
{
    if n == 0 {
        Seq::<Seq<char>>::empty()
    } else {
        let before = title_words(segments, (n - 1) as nat);
        let w = title_word(n - 1, segments[n - 1]);
        if w.len() == 0 {
            before
        } else {
            before.push(w)
        }
    }
}

/// The title form of a dot-joined name: every segment capitalized, but for
/// the stopwords `the`, `of` and `and` behind the first segment; empty
/// segments dropped; the rest joined by single full stops.
pub open spec fn title_cased(s: Seq<char>) -> Seq<char> {
    join_dots(title_words(split_dots(s), split_dots(s).len()))
}

/// The texts that the vectors of `words` hold.
pub open spec fn texts(words: Seq<Vec<char>>) -> Seq<Seq<char>> {
    Seq::new(words.len(), |i: int| words[i]@)
}

/// Title-casing never capitalizes a stopword behind the first segment: it
/// goes into the title as it is. Every other segment goes in capitalized.
pub proof fn stopwords_stay_lower(index: int, w: Seq<char>)
    ensures
        index != 0 && is_stopword(w) ==> title_word(index, w) == w,
        index == 0 || !is_stopword(w) ==> title_word(index, w) == capitalized(w),
{
}

/// There is always at least one segment.
pub proof fn lemma_split_nonempty(s: Seq<char>)
    ensures
        split_dots(s).len() >= 1,
    decreases s.len(),
{
    if s.len() > 0 {
        lemma_split_nonempty(s.drop_last());
    }
}

/// The segments of `v`.
pub(crate) fn split_at_dots(v: &Vec<char>) -> (segments: Vec<Vec<char>>)
    ensures
        texts(segments@) == split_dots(v@),
{
    let mut done: Vec<Vec<char>> = Vec::new();
    let mut word: Vec<char> = Vec::new();
    let mut i: usize = 0;
    while i < v.len()
        invariant
            i <= v.len(),
            texts(done@).push(word@) == split_dots(v@.take(i as int)),
        decreases v.len() - i,
    {
        proof {
            assert(v@.take(i + 1).drop_last() =~= v@.take(i as int));
            lemma_split_nonempty(v@.take(i as int));
        }
        let c: char = v[i];
        let ghost before = texts(done@).push(word@);
        if c == '.' {
            done.push(word);
            word = Vec::new();
            assert(texts(done@) =~= before);
        } else {
            word.push(c);
            assert(texts(done@).push(word@) =~= before.drop_last().push(before.last().push(c)));
        }
        i += 1;
    }
    assert(v@.take(v.len() as int) =~= v@);
    let ghost before = texts(done@).push(word@);
    done.push(word);
    assert(texts(done@) =~= before);
    done
}

fn stopword(w: &Vec<char>) -> (b: bool)
    ensures
        b == is_stopword(w@),
{
    let n: usize = w.len();
    if n == 3 && w[0] == 't' && w[1] == 'h' && w[2] == 'e' {
        assert(w@ =~= seq!['t', 'h', 'e']);
        true
    } else if n == 2 && w[0] == 'o' && w[1] == 'f' {
        assert(w@ =~= seq!['o', 'f']);
        true
    } else if n == 3 && w[0] == 'a' && w[1] == 'n' && w[2] == 'd' {
        assert(w@ =~= seq!['a', 'n', 'd']);
        true
    } else {
        assert(seq!['t', 'h', 'e'].len() == 3 && seq!['t', 'h', 'e'][0] == 't' && seq![
            't',
            'h',
            'e',
        ][1] == 'h' && seq!['t', 'h', 'e'][2] == 'e');
        assert(seq!['o', 'f'].len() == 2 && seq!['o', 'f'][0] == 'o' && seq!['o', 'f'][1] == 'f');
        assert(seq!['a', 'n', 'd'].len() == 3 && seq!['a', 'n', 'd'][0] == 'a' && seq![
            'a',
            'n',
            'd',
        ][1] == 'n' && seq!['a', 'n', 'd'][2] == 'd');
        false
    }
}

/// The title form of the segment `w` that stands at `index`.
fn title_of_word(index: usize, w: &Vec<char>) -> (word: Vec<char>)
    ensures
        word@ == title_word(index as int, w@),
{
    if w.len() == 0 || (index != 0 && stopword(w)) {
        let mut word: Vec<char> = Vec::new();
        extend(&mut word, w);
        assert(word@ =~= w@);
        word
    } else {
        let mut word = std_uppercase(w[0]);
        let mut k: usize = 1;
        while k < w.len()
            invariant
                1 <= k <= w.len(),
                word@ == unicode_uppercase(w@[0]) + w@.subrange(1, k as int),
            decreases w.len() - k,
        {
            word.push(w[k]);
            k += 1;
            assert(word@ =~= unicode_uppercase(w@[0]) + w@.subrange(1, k as int));
        }
        assert(w@.subrange(1, w.len() as int) =~= w@.skip(1));
        word
    }
}

/// The title form of `v`.
pub(crate) fn title_case_chars(v: &Vec<char>) -> (r: Vec<char>)
    ensures
        r@ == title_cased(v@),
{
    let segments = split_at_dots(v);
    let ghost segs = texts(segments@);
    let mut out: Vec<char> = Vec::new();
    let mut any: bool = false;
    let mut j: usize = 0;
    while j < segments.len()
        invariant
            j <= segments.len(),
            segs == texts(segments@),
            segs.len() == segments.len(),
            out@ == join_dots(title_words(segs, j as nat)),
            any == (title_words(segs, j as nat).len() > 0),
        decreases segments.len() - j,
    {
        assert(segments@[j as int]@ == segs[j as int]);
        let ghost before = title_words(segs, j as nat);
        let word = title_of_word(j, &segments[j]);
        if word.len() > 0 {
            assert(title_words(segs, (j + 1) as nat) == before.push(word@));
            assert(before.push(word@).drop_last() =~= before);
            if any {
                out.push('.');
                assert(out@ =~= join_dots(before) + seq!['.']);
            } else {
                assert(before =~= Seq::<Seq<char>>::empty());
            }
            extend(&mut out, &word);
            any = true;
        }
        j += 1;
    }
    out
}

/// Title-cases a dot-joined name: splits it at the full stops, capitalizes
/// the first character of every segment except the stopwords `the`, `of` and
/// `and` behind the first segment, drops empty segments, and joins the rest
/// with single full stops.
pub fn capitalize_title_case(text: &str) -> (title: String)
    ensures
        title@ == title_cased(text@),
{
    let v = chars_of(text);
    let r = title_case_chars(&v);
    string_of(&r)
}

} // verus!
