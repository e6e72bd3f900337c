//! Numbers in file names: reading digits, and rendering the canonical season
//! and episode tokens.

use crate::chars::{char_is_digit, digit_char, digit_value, is_digit, string_of};
use vstd::prelude::*;

verus! {

/// Every character of `s` is a digit.
pub open spec fn all_digits(s: Seq<char>) -> bool {
    forall|i: int| 0 <= i < s.len() ==> is_digit(#[trigger] s[i])
}

/// The number that the digits of `s` denote; 0 for the empty text.
pub open spec fn digits_value(s: Seq<char>) -> nat
    decreases s.len(),
{
    if s.len() == 0 {
        0
    } else {
        digits_value(s.drop_last()) * 10 + digit_value(s.last())
    }
}

/// The decimal digits of `n`, without leading zeros.
pub open spec fn decimal(n: nat) -> Seq<char>
    decreases n,
{
    if n < 10 {
        seq![digit_char(n)]
    } else {
        decimal(n / 10).push(digit_char(n % 10))
    }
}

/// The digits of `n`, with a zero in front where `n` has a single digit.
pub open spec fn padded(n: nat) -> Seq<char> {
    if n < 10 {
        seq!['0', digit_char(n)]
    } else {
        decimal(n)
    }
}

/// The canonical token of the number `n` under `letter`: the letter, then
/// the digits of `n`, padded to two.
pub open spec fn token(letter: char, n: nat) -> Seq<char> {
    seq![letter] + padded(n)
}

/// The number that `s` denotes to a reader who takes digits only and stops at
/// `u32::MAX`: `None` for the empty text, for a text with a character that is
/// no digit, and for a number beyond `u32::MAX`.
pub open spec fn number_of(s: Seq<char>) -> Option<nat> {
    if s.len() > 0 && all_digits(s) && digits_value(s) <= u32::MAX {
        Some(digits_value(s))
    } else {
        None
    }
}

/// The digits of a number denote it, and there are as many as the number
/// needs.
pub proof fn lemma_decimal(n: nat)
    ensures
        decimal(n).len() >= 1,
        all_digits(decimal(n)),
        digits_value(decimal(n)) == n,
        n >= 10 ==> decimal(n).len() >= 2,
        n >= 100 ==> decimal(n).len() >= 3,
        n < 100 ==> decimal(n).len() <= 2,
        n < 1000 ==> decimal(n).len() <= 3,
        n >= 1 ==> decimal(n)[0] != '0',
    decreases n,
{
    if n < 10 {
        let s = seq![digit_char(n)];
        assert(s.drop_last() =~= Seq::<char>::empty());
        assert(digits_value(s.drop_last()) == 0);
    } else {
        let q = n / 10;
        lemma_decimal(q);
        let s = decimal(n);
        assert(s.drop_last() =~= decimal(q));
        assert(s.last() == digit_char(n % 10));
        assert(s[0] == decimal(q)[0]);
        assert forall|i: int| 0 <= i < s.len() implies is_digit(#[trigger] s[i]) by {
            if i < s.len() - 1 {
                assert(s[i] == decimal(q)[i]);
            }
        }
    }
}

/// Rendering pads to at least two digits and never truncates: the digits of a
/// token are digits, at least two of them, and they denote the number that
/// was rendered.
pub proof fn token_denotes_number(letter: char, n: nat)
    ensures
        token(letter, n)[0] == letter,
        token(letter, n).len() >= 3,
        token(letter, n).skip(1) == padded(n),
        all_digits(padded(n)),
        digits_value(padded(n)) == n,
        n < 100 <==> padded(n).len() == 2,
        n < 1000 ==> padded(n).len() <= 3,
{
    lemma_decimal(n);
    assert(token(letter, n).skip(1) =~= padded(n));
    if n < 10 {
        let s = seq!['0', digit_char(n)];
        assert(s.drop_last() =~= seq!['0']);
        assert(seq!['0'].drop_last() =~= Seq::<char>::empty());
        assert(digits_value(seq!['0']) == 0) by {
            assert(digits_value(seq!['0'].drop_last()) == 0);
        }
    }
}

/// Up to three digits denote a number below 1000.
pub proof fn lemma_three_digits(d: Seq<char>)
    requires
        d.len() <= 3,
        all_digits(d),
    ensures
        digits_value(d) <= 999,
{
    reveal_with_fuel(digits_value, 4);
    if d.len() >= 1 {
        let d1 = d.drop_last();
        assert(is_digit(d[d.len() - 1]));
        if d1.len() >= 1 {
            let d2 = d1.drop_last();
            assert(d1[d1.len() - 1] == d[d.len() - 2]);
            assert(is_digit(d[d.len() - 2]));
            if d2.len() >= 1 {
                let d3 = d2.drop_last();
                assert(d2[d2.len() - 1] == d[d.len() - 3]);
                assert(is_digit(d[d.len() - 3]));
                assert(d3.len() == 0);
            }
        }
    }
}

/// A text of digits grows in value with every digit added at its end.
pub proof fn lemma_digits_value_grows(s: Seq<char>, k: int)
    requires
        0 <= k <= s.len(),
    ensures
        digits_value(s.take(k)) <= digits_value(s),
    decreases s.len() - k,
{
    if k < s.len() {
        lemma_digits_value_grows(s, k + 1);
        assert(s.take(k + 1).drop_last() =~= s.take(k));
    } else {
        assert(s.take(k) =~= s);
    }
}

/// Appends the digits of `n` to `out`.
fn push_decimal(out: &mut Vec<char>, n: u32)
    ensures
        final(out)@ == old(out)@ + decimal(n as nat),
    decreases n,
{
    if n >= 10 {
        push_decimal(out, n / 10);
    }
    let d: u8 = (n % 10) as u8;
    out.push((d + 48) as char);
    assert(final(out)@ =~= old(out)@ + decimal(n as nat));
}

/// The canonical token of `n` under `letter`.
pub(crate) fn render_token_chars(letter: char, n: u32) -> (r: Vec<char>)
    ensures
        r@ == token(letter, n as nat),
{
    let mut r: Vec<char> = Vec::new();
    r.push(letter);
    if n < 10 {
        r.push('0');
    }
    push_decimal(&mut r, n);
    assert(r@ =~= token(letter, n as nat));
    r
}

/// Renders the canonical token of `n`: `letter`, then the digits of `n`,
/// padded with a zero to two digits and never cut.
pub fn render_token(letter: char, n: u32) -> (t: String)
    ensures
        t@ == token(letter, n as nat),
{
    let r = render_token_chars(letter, n);
    string_of(&r)
}

/// The number that `v` denotes, if it is made of digits alone and fits.
pub(crate) fn read_number(v: &Vec<char>) -> (r: Option<u32>)
    ensures
        match r {
            Some(n) => number_of(v@) == Some(n as nat),
            None => number_of(v@) is None,
        },
{
    if v.len() == 0 {
        return None;
    }
    let mut acc: u32 = 0;
    let mut i: usize = 0;
    while i < v.len()
        invariant
            i <= v.len(),
            all_digits(v@.take(i as int)),
            acc == digits_value(v@.take(i as int)),
        decreases v.len() - i,
    {
        let c: char = v[i];
        proof {
            assert(v@.take(i + 1).drop_last() =~= v@.take(i as int));
            assert(v@.take(i + 1).last() == c);
        }
        if !char_is_digit(c) {
            return None;
        }
        let d: u32 = (c as u32) - 48;
        proof {
            lemma_digits_value_grows(v@, i + 1);
        }
        if acc > (u32::MAX - d) / 10 {
            assert(acc * 10 + d > u32::MAX) by (nonlinear_arith)
                requires
                    acc > (u32::MAX - d) / 10,
                    0 <= d <= 9,
            ;
            return None;
        }
        assert(acc * 10 + d <= u32::MAX) by (nonlinear_arith)
            requires
                acc <= (u32::MAX - d) / 10,
                0 <= d <= 9,
        ;
        acc = acc * 10 + d;
        i += 1;
        assert forall|j: int| 0 <= j < i implies is_digit(#[trigger] v@.take(i as int)[j]) by {
            if j < i - 1 {
                assert(v@.take(i as int)[j] == v@.take(i - 1)[j]);
            }
        }
    }
    assert(v@.take(v.len() as int) =~= v@);
    Some(acc)
}

} // verus!
