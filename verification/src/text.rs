//! Strings as sequences of characters: conversion, trimming and the
//! character classes that the standard library decides.

use vstd::prelude::*;

verus! {

/// The characters with the Unicode property `White_Space`: the controls
/// from tab to carriage return, the space, the next-line control, the
/// no-break spaces, the spaces of fixed width, and the line and paragraph
/// separators.
pub open spec fn white_space(c: char) -> bool {
    ||| '\u{9}' <= c <= '\u{d}'
    ||| c == ' '
    ||| c == '\u{85}'
    ||| c == '\u{a0}'
    ||| c == '\u{1680}'
    ||| '\u{2000}' <= c <= '\u{200a}'
    ||| c == '\u{2028}'
    ||| c == '\u{2029}'
    ||| c == '\u{202f}'
    ||| c == '\u{205f}'
    ||| c == '\u{3000}'
}

/// Whether a character beyond ASCII has the Unicode property `Alphabetic`,
/// as `char::is_alphabetic` reports it.
pub uninterp spec fn char_is_alphabetic(c: char) -> bool;

/// The characters with the Unicode property `Alphabetic`: within ASCII the
/// letters from `a` to `z` and from `A` to `Z`; beyond ASCII what
/// `char_is_alphabetic` names.
pub open spec fn alphabetic(c: char) -> bool {
    if c <= '\u{7f}' {
        'a' <= c <= 'z' || 'A' <= c <= 'Z'
    } else {
        char_is_alphabetic(c)
    }
}

/// `char::is_whitespace` is taken on trust to tell the characters with the
/// Unicode property `White_Space`, which the Unicode character database
/// lists as `white_space` does.
pub assume_specification[ char::is_whitespace ](c: char) -> (b: bool)
    ensures
        b == white_space(c),
;

/// `char::is_alphabetic` is taken on trust to tell the characters with the
/// Unicode property `Alphabetic`: within ASCII the letters and nothing
/// else; beyond ASCII its result is a function of the character alone,
/// named and not described.
pub assume_specification[ char::is_alphabetic ](c: char) -> (b: bool)
    ensures
        c <= '\u{7f}' ==> b == ('a' <= c <= 'z' || 'A' <= c <= 'Z'),
        c > '\u{7f}' ==> b == char_is_alphabetic(c),
;

/// `String::push` is taken on trust to append the character to the end of
/// the string and to leave the characters before it as they were.
pub assume_specification[ String::push ](s: &mut String, c: char)
    ensures
        final(s)@ == old(s)@.push(c),
;

/// The text without its leading whitespace.
pub open spec fn trim_start(s: Seq<char>) -> Seq<char>
    decreases s.len(),
{
    if s.len() > 0 && white_space(s[0]) {
        trim_start(s.drop_first())
    } else {
        s
    }
}

/// The text without its trailing whitespace.
pub open spec fn trim_end(s: Seq<char>) -> Seq<char>
    decreases s.len(),
{
    if s.len() > 0 && white_space(s.last()) {
        trim_end(s.drop_last())
    } else {
        s
    }
}

/// The text without the whitespace at either end.
pub open spec fn trimmed(s: Seq<char>) -> Seq<char> {
    trim_end(trim_start(s))
}

/// The characters of a string, in order.
pub fn to_chars(s: &str) -> (v: Vec<char>)
    ensures
        v@ == s@,
{
    broadcast use vstd::string::group_string_axioms;

    let mut v: Vec<char> = Vec::new();
    for c in it: s.chars()
        invariant
            it.seq() == s@,
            v@ == it.seq().take(it.index() as int),
    {
        v.push(c);
    }
    assert(v@ == s@);
    v
}

/// Copies the characters between two positions.
pub fn copy_range(s: &[char], from: usize, to: usize) -> (v: Vec<char>)
    requires
        from <= to <= s@.len(),
    ensures
        v@ == s@.subrange(from as int, to as int),
{
    let mut v: Vec<char> = Vec::new();
    let mut i: usize = from;
    while i < to
        invariant
            from <= i <= to <= s@.len(),
            v@ == s@.subrange(from as int, i as int),
        decreases to - i,
    {
        v.push(s[i]);
        i += 1;
    }
    v
}

/// Removes the whitespace at both ends.
pub fn trim(s: &[char]) -> (v: Vec<char>)
    ensures
        v@ == trimmed(s@),
{
    let n: usize = s.len();
    let mut start: usize = 0;
    assert(s@.subrange(0, n as int) == s@);
    while start < n && s[start].is_whitespace()
        invariant
            start <= n == s@.len(),
            trim_start(s@) == trim_start(s@.subrange(start as int, n as int)),
        decreases n - start,
    {
        assert(s@.subrange(start as int, n as int).drop_first() == s@.subrange(
            start as int + 1,
            n as int,
        ));
        start += 1;
    }
    assert(trim_start(s@) == s@.subrange(start as int, n as int));
    let mut end: usize = n;
    while end > start && s[end - 1].is_whitespace()
        invariant
            start <= end <= n == s@.len(),
            trimmed(s@) == trim_end(s@.subrange(start as int, end as int)),
        decreases end - start,
    {
        assert(s@.subrange(start as int, end as int).drop_last() == s@.subrange(
            start as int,
            end as int - 1,
        ));
        end -= 1;
    }
    copy_range(s, start, end)
}

} // verus!
