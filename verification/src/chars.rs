//! Character classes, case mapping and the passage between `str` and `Vec<char>`.
//!
//! Every text in this crate is modelled as a `Seq<char>`. The executable code
//! works on `Vec<char>` and turns strings into vectors at the edge. Case
//! mapping is std's: the library calls it and names what it gives.

use vstd::prelude::*;

verus! {

/// The characters that count as whitespace: those with the Unicode
/// `White_Space` property.
pub open spec fn is_whitespace(c: char) -> bool {
    let n = c as u32;
    ||| 0x09 <= n <= 0x0D
    ||| n == 0x20
    ||| n == 0x85
    ||| n == 0xA0
    ||| n == 0x1680
    ||| 0x2000 <= n <= 0x200A
    ||| n == 0x2028
    ||| n == 0x2029
    ||| n == 0x202F
    ||| n == 0x205F
    ||| n == 0x3000
}

/// The ten ASCII digits.
pub open spec fn is_digit(c: char) -> bool {
    '0' <= c <= '9'
}

/// The number that the digit `c` stands for.
pub open spec fn digit_value(c: char) -> nat
    recommends
        is_digit(c),
{
    (c as u32 - '0' as u32) as nat
}

/// The digit that stands for `d`.
pub open spec fn digit_char(d: nat) -> char
    recommends
        d < 10,
{
    (d + '0' as u32) as char
}

/// The lower-case form of a text: what std's `str::to_lowercase` gives for it.
pub uninterp spec fn lowercase_of(text: Seq<char>) -> Seq<char>;

/// The upper-case form of a character: what std's `char::to_uppercase` yields
/// for it, in order. It may be more than one character.
pub uninterp spec fn unicode_uppercase(c: char) -> Seq<char>;

/// Calls std's `str::to_lowercase`. The contract only names the result.
#[verifier::external_body]
fn std_to_lowercase(text: &str) -> (r: String)
    ensures
        r@ == lowercase_of(text@),
{
    text.to_lowercase()
}

/// Calls std's `char::to_uppercase` and collects what it yields. The contract
/// only names that result.
#[verifier::external_body]
pub(crate) fn std_uppercase(c: char) -> (r: Vec<char>)
    ensures
        r@ == unicode_uppercase(c),
{
    c.to_uppercase().collect()
}

/// Builds a `String` from its characters with std's `String::from_iter`: the
/// string holds exactly the characters of `chars`, in order.
#[verifier::external_body]
pub(crate) fn string_of(chars: &Vec<char>) -> (s: String)
    ensures
        s@ == chars@,
{
    String::from_iter(chars.iter())
}

/// The characters of `s`.
pub(crate) fn chars_of(s: &str) -> (v: Vec<char>)
    ensures
        v@ == s@,
{
    let mut v: Vec<char> = Vec::new();
    for c in it: s.chars()
        invariant
            v@ == it.seq().take(it.index() as int),
    {
        v.push(c);
    }
    v
}

/// The lower-case form of `v`.
pub(crate) fn lower_case(v: &Vec<char>) -> (r: Vec<char>)
    ensures
        r@ == lowercase_of(v@),
{
    let text = string_of(v);
    let lower = std_to_lowercase(text.as_str());
    chars_of(lower.as_str())
}

pub(crate) fn char_is_whitespace(c: char) -> (b: bool)
    ensures
        b == is_whitespace(c),
{
    let n: u32 = c as u32;
    (0x09 <= n && n <= 0x0D) || n == 0x20 || n == 0x85 || n == 0xA0 || n == 0x1680 || (0x2000 <= n
        && n <= 0x200A) || n == 0x2028 || n == 0x2029 || n == 0x202F || n == 0x205F || n == 0x3000
}

pub(crate) fn char_is_digit(c: char) -> (b: bool)
    ensures
        b == is_digit(c),
{
    '0' <= c && c <= '9'
}

} // verus!
