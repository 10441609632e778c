//! What this library assumes of the string and character functions of the
//! standard library.

use vstd::prelude::*;

verus! {

/// Whether a character has the Unicode property `White_Space`, as
/// `char::is_whitespace` reports it.
pub uninterp spec fn is_whitespace_char(c: char) -> bool;

/// Whether a character has the Unicode property `Alphabetic`, as
/// `char::is_alphabetic` reports it.
pub uninterp spec fn is_alphabetic_char(c: char) -> bool;

/// `char::is_whitespace` decides the Unicode property `White_Space`, which
/// this library knows only by name.
pub assume_specification[ char::is_whitespace ](c: char) -> (b: bool)
    ensures
        b == is_whitespace_char(c),
;

/// `char::is_alphabetic` decides the Unicode property `Alphabetic`, which
/// this library knows only by name.
pub assume_specification[ char::is_alphabetic ](c: char) -> (b: bool)
    ensures
        b == is_alphabetic_char(c),
;

/// `String::push` appends one character at the end of the string.
pub assume_specification[ std::string::String::push ](s: &mut std::string::String, c: char)
    ensures
        final(s)@ == old(s)@.push(c),
;

/// `str::eq` holds exactly when both slices are the same sequence of
/// characters.
pub assume_specification[ <str as PartialEq>::eq ](a: &str, b: &str) -> (r: bool)
    ensures
        r == (a@ == b@),
;

/// The characters of a string slice, in order.
pub fn chars_of(s: &str) -> (v: Vec<char>)
    ensures
        v@ == s@,
{
    let mut v: Vec<char> = Vec::new();
    for c in it: s.chars()
        invariant
            v@ == it.seq().subrange(0, it.index() as int),
    {
        v.push(c);
    }
    v
}

/// The string made of the given characters, in order.
pub fn string_of(chars: &Vec<char>) -> (s: String)
    ensures
        s@ == chars@,
{
    let mut s = String::new();
    let mut i: usize = 0;
    while i < chars.len()
        invariant
            i <= chars.len(),
            s@ == chars@.subrange(0, i as int),
        decreases chars.len() - i,
    {
        s.push(chars[i]);
        i = i + 1;
        assert(chars@.subrange(0, i as int) == chars@.subrange(0, i - 1).push(chars@[i - 1]));
    }
    assert(chars@.subrange(0, i as int) == chars@);
    s
}

} // verus!
