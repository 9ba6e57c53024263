//! Text as sequences of characters: conversion between strings and character
//! buffers, and whitespace trimming over a range of a buffer.

use vstd::prelude::*;

verus! {

/// `String::push` appends exactly the given character to the end of the string.
pub assume_specification[ String::push ](s: &mut String, ch: char)
    ensures
        final(s)@ == old(s)@.push(ch),
;

/// The four characters that separate tokens.
pub open spec fn is_space(c: char) -> bool {
    c == ' ' || c == '\t' || c == '\n' || c == '\r'
}

/// Whether `c` is one of the characters that separate tokens.
#[verifier::when_used_as_spec(is_space)]
pub fn space(c: char) -> (r: bool)
    ensures
        r == is_space(c),
{
    c == ' ' || c == '\t' || c == '\n' || c == '\r'
}

/// The first index in `[from, to]` that is `to` or holds no whitespace.
pub open spec fn lead(s: Seq<char>, from: int, to: int) -> int
    decreases to - from,
{
    if from < to && 0 <= from < s.len() && is_space(s[from]) {
        lead(s, from + 1, to)
    } else {
        from
    }
}

/// The last index in `[from, to]` that is `from` or follows a character that
/// is no whitespace.
pub open spec fn trail(s: Seq<char>, from: int, to: int) -> int
    decreases to - from,
{
    if from < to && 0 < to <= s.len() && is_space(s[to - 1]) {
        trail(s, from, to - 1)
    } else {
        to
    }
}

/// The characters of `s` in `[from, to)` without leading and trailing
/// whitespace.
pub open spec fn trimmed(s: Seq<char>, from: int, to: int) -> Seq<char> {
    let a = lead(s, from, to);
    s.subrange(a, trail(s, a, to))
}

/// The characters of a string, in order.
pub fn chars_of(s: &str) -> (v: Vec<char>)
    ensures
        v@ == s@,
{
    let mut v: Vec<char> = Vec::new();
    for c in it: s.chars()
        invariant
            v@ == it.seq().take(it.index()),
            it.seq() == s@,
    {
        v.push(c);
    }
    v
}

/// The string made of the characters of `chars` in `[from, to)`.
pub(crate) fn text_of(chars: &Vec<char>, from: usize, to: usize) -> (s: String)
    requires
        from <= to <= chars.len(),
    ensures
        s@ == chars@.subrange(from as int, to as int),
{
    let mut s = String::new();
    let mut i: usize = from;
    while i < to
        invariant
            from <= i <= to <= chars.len(),
            s@ == chars@.subrange(from as int, i as int),
        decreases to - i,
    {
        s.push(chars[i]);
        i += 1;
    }
    s
}

/// The string made of all the characters of `chars`.
pub(crate) fn string_of(chars: &Vec<char>) -> (s: String)
    ensures
        s@ == chars@,
{
    assert(chars@.subrange(0, chars@.len() as int) == chars@);
    text_of(chars, 0, chars.len())
}

/// Appends the characters of `more` to `out`.
pub(crate) fn append_chars(out: &mut Vec<char>, more: &Vec<char>)
    ensures
        final(out)@ == old(out)@ + more@,
{
    let mut i: usize = 0;
    while i < more.len()
        invariant
            i <= more.len(),
            out@ == old(out)@ + more@.take(i as int),
        decreases more.len() - i,
    {
        out.push(more[i]);
        i += 1;
    }
    assert(more@.take(more@.len() as int) == more@);
}

/// Skips whitespace forwards from `from`, not beyond `to`.
pub(crate) fn skip_spaces(chars: &Vec<char>, from: usize, to: usize) -> (r: usize)
    requires
        from <= to <= chars.len(),
    ensures
        r == lead(chars@, from as int, to as int),
        from <= r <= to,
{
    let mut i: usize = from;
    while i < to && space(chars[i])
        invariant
            from <= i <= to <= chars.len(),
            lead(chars@, from as int, to as int) == lead(chars@, i as int, to as int),
        decreases to - i,
    {
        i += 1;
    }
    i
}

/// Skips whitespace backwards from `to`, not beyond `from`.
pub(crate) fn drop_spaces(chars: &Vec<char>, from: usize, to: usize) -> (r: usize)
    requires
        from <= to <= chars.len(),
    ensures
        r == trail(chars@, from as int, to as int),
        from <= r <= to,
{
    let mut j: usize = to;
    while from < j && space(chars[j - 1])
        invariant
            from <= j <= to <= chars.len(),
            trail(chars@, from as int, to as int) == trail(chars@, from as int, j as int),
        decreases j - from,
    {
        j -= 1;
    }
    j
}

/// The text of `chars` in `[from, to)`, trimmed of whitespace at both ends.
pub(crate) fn trimmed_text(chars: &Vec<char>, from: usize, to: usize) -> (s: String)
    requires
        from <= to <= chars.len(),
    ensures
        s@ == trimmed(chars@, from as int, to as int),
{
    let a: usize = skip_spaces(chars, from, to);
    let b: usize = drop_spaces(chars, a, to);
    text_of(chars, a, b)
}

} // verus!
