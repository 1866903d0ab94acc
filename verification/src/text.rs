//! Character-level helpers shared by the parser, the renderer and the
//! diagnostics: conversion between strings and character vectors, decimal
//! numerals, and UTF-8 sizes for the fixed-capacity reason buffer.

use vstd::prelude::*;
use vstd::utf8::{encode_scalar, encode_utf8};

verus! {

/// Appends one character to `s`.
///
/// Calls `String::push` of the standard library, of which nothing is proved
/// here: the contract restates its documentation, that the character is added
/// at the end and nothing else changes.
#[verifier::external_body]
pub(crate) fn push_char(s: &mut String, c: char)
    ensures
        final(s)@ == old(s)@.push(c),
{
    s.push(c)
}

/// The characters of `s`, in order.
pub fn chars_of(s: &str) -> (v: Vec<char>)
    ensures
        v@ == s@,
{
    let mut v: Vec<char> = Vec::new();
    for c in it: s.chars()
        invariant
            v@ == it.seq().take(it.index()),
            it.seq() == s@,
    {
        v.push(c);
    }
    v
}

/// Number of bytes that the UTF-8 encoding of `c` takes.
pub open spec fn utf8_width(c: char) -> nat {
    encode_scalar(c as u32).len()
}

/// Number of bytes that the UTF-8 encoding of `s` takes.
pub open spec fn utf8_len(s: Seq<char>) -> nat {
    encode_utf8(s).len()
}

/// The width of a text is the width of its first character plus that of the rest.
pub proof fn lemma_utf8_len_step(s: Seq<char>)
    requires
        s.len() > 0,
    ensures
        utf8_len(s) == utf8_width(s[0]) + utf8_len(s.drop_first()),
        1 <= utf8_width(s[0]) <= 4,
{
}

/// The width of a concatenation is the sum of the widths.
pub proof fn lemma_utf8_len_concat(a: Seq<char>, b: Seq<char>)
    ensures
        utf8_len(a + b) == utf8_len(a) + utf8_len(b),
    decreases a.len(),
{
    if a.len() == 0 {
        assert(a + b =~= b);
    } else {
        lemma_utf8_len_step(a);
        lemma_utf8_len_step(a + b);
        assert((a + b).drop_first() =~= a.drop_first() + b);
        lemma_utf8_len_concat(a.drop_first(), b);
    }
}

/// Number of bytes that the UTF-8 encoding of `c` takes.
pub fn char_width(c: char) -> (w: usize)
    ensures
        w == utf8_width(c),
        1 <= w <= 4,
{
    let u: u32 = c as u32;
    if u < 0x80 {
        1
    } else if u < 0x800 {
        2
    } else if u < 0x10000 {
        3
    } else {
        4
    }
}

/// How many leading characters of `s` fit into `budget` bytes of UTF-8.
pub open spec fn fitting(s: Seq<char>, budget: nat) -> nat
    decreases s.len(),
{
    if s.len() == 0 || utf8_width(s[0]) > budget {
        0
    } else {
        1 + fitting(s.drop_first(), (budget - utf8_width(s[0])) as nat)
    }
}

/// The longest prefix of `s` whose UTF-8 encoding takes at most `budget` bytes.
pub open spec fn truncated(s: Seq<char>, budget: nat) -> Seq<char> {
    s.take(fitting(s, budget) as int)
}

/// `fitting` never counts more characters than there are, and what it counts fits.
pub proof fn lemma_fitting(s: Seq<char>, budget: nat)
    ensures
        fitting(s, budget) <= s.len(),
        utf8_len(truncated(s, budget)) <= budget,
        utf8_len(s) <= budget ==> truncated(s, budget) == s,
    decreases s.len(),
{
    if s.len() == 0 {
        assert(s.take(0) =~= s);
    } else if utf8_width(s[0]) > budget {
        lemma_utf8_len_step(s);
        assert(s.take(0) =~= Seq::<char>::empty());
    } else {
        let rest = s.drop_first();
        let left = (budget - utf8_width(s[0])) as nat;
        lemma_fitting(rest, left);
        lemma_utf8_len_step(s);
        let n = fitting(rest, left);
        assert(s.take(n as int + 1) =~= seq![s[0]] + rest.take(n as int));
        lemma_utf8_len_concat(seq![s[0]], rest.take(n as int));
        lemma_utf8_len_step(seq![s[0]]);
        assert(seq![s[0]].drop_first() =~= Seq::<char>::empty());
        if utf8_len(s) <= budget {
            assert(s =~= seq![s[0]] + rest);
        }
    }
}

/// Appends to `out` the longest prefix of `chars` that fits into `budget` bytes.
pub fn push_truncated(out: &mut String, chars: &Vec<char>, budget: usize)
    ensures
        final(out)@ == old(out)@ + truncated(chars@, budget as nat),
{
    let mut used: usize = 0;
    let mut i: usize = 0;
    proof {
        assert(chars@.skip(0) =~= chars@);
        assert(out@ + chars@.take(0) =~= out@);
    }
    while i < chars.len() && char_width(chars[i]) <= budget - used
        invariant
            i <= chars@.len(),
            used <= budget,
            out@ == old(out)@ + chars@.take(i as int),
            fitting(chars@, budget as nat) == i + fitting(
                chars@.skip(i as int),
                (budget - used) as nat,
            ),
        decreases chars@.len() - i,
    {
        let c = chars[i];
        let w = char_width(c);
        proof {
            let rest = chars@.skip(i as int);
            assert(rest[0] == c);
            assert(rest.drop_first() =~= chars@.skip(i + 1));
            assert(chars@.take(i + 1) =~= chars@.take(i as int).push(c));
        }
        push_char(out, c);
        used += w;
        i += 1;
    }
    proof {
        let rest = chars@.skip(i as int);
        if i < chars@.len() {
            assert(rest[0] == chars@[i as int]);
        }
        assert(fitting(rest, (budget - used) as nat) == 0);
    }
}

/// The decimal numeral of `n`, without leading zeros.
pub open spec fn decimal(n: nat) -> Seq<char>
    decreases n,
{
    if n < 10 {
        seq![digit(n)]
    } else {
        decimal(n / 10).push(digit(n % 10))
    }
}

/// The character of the decimal digit `d`.
pub open spec fn digit(d: nat) -> char
    recommends
        d < 10,
{
    if d == 0 {
        '0'
    } else if d == 1 {
        '1'
    } else if d == 2 {
        '2'
    } else if d == 3 {
        '3'
    } else if d == 4 {
        '4'
    } else if d == 5 {
        '5'
    } else if d == 6 {
        '6'
    } else if d == 7 {
        '7'
    } else if d == 8 {
        '8'
    } else {
        '9'
    }
}

/// The character of the decimal digit `d`.
pub fn digit_char(d: u16) -> (c: char)
    requires
        d < 10,
    ensures
        c == digit(d as nat),
{
    if d == 0 {
        '0'
    } else if d == 1 {
        '1'
    } else if d == 2 {
        '2'
    } else if d == 3 {
        '3'
    } else if d == 4 {
        '4'
    } else if d == 5 {
        '5'
    } else if d == 6 {
        '6'
    } else if d == 7 {
        '7'
    } else if d == 8 {
        '8'
    } else {
        '9'
    }
}

/// Appends the decimal numeral of `n` to `out`.
pub fn push_decimal(out: &mut String, n: u16)
    ensures
        final(out)@ == old(out)@ + decimal(n as nat),
    decreases n,
{
    if n >= 10 {
        push_decimal(out, n / 10);
    }
    push_char(out, digit_char(n % 10));
    proof {
        if n >= 10 {
            assert(old(out)@ + decimal(n as nat) =~= (old(out)@ + decimal((n / 10) as nat)).push(
                digit((n % 10) as nat),
            ));
        } else {
            assert(old(out)@ + decimal(n as nat) =~= old(out)@.push(digit(n as nat)));
        }
    }
}

/// The decimal numeral of `n` as a string.
pub fn decimal_string(n: u16) -> (s: String)
    ensures
        s@ == decimal(n as nat),
{
    let mut s = String::new();
    push_decimal(&mut s, n);
    assert(Seq::<char>::empty() + decimal(n as nat) =~= decimal(n as nat));
    s
}

} // verus!
