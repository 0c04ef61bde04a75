//! Characters of a text, and the classes of character that sentence
//! segmentation looks at.

use vstd::prelude::*;
use vstd::string::*;

verus! {

/// Blank, tab, line feed or carriage return.
pub open spec fn is_whitespace(c: char) -> bool {
    c == ' ' || c == '\t' || c == '\n' || c == '\r'
}

/// A character that can close a sentence.
pub open spec fn is_terminator(c: char) -> bool {
    c == '.' || c == '!' || c == '?'
}

pub fn whitespace(c: char) -> (b: bool)
    ensures
        b == is_whitespace(c),
{
    c == ' ' || c == '\t' || c == '\n' || c == '\r'
}

pub fn terminator(c: char) -> (b: bool)
    ensures
        b == is_terminator(c),
{
    c == '.' || c == '!' || c == '?'
}

/// The characters of `s`, in order.
pub fn chars_of(s: &str) -> (v: Vec<char>)
    ensures
        v@ == s@,
{
    let mut v: Vec<char> = Vec::new();
    for c in it: s.chars()
        invariant
            v@ == s@.take(it.index() as int),
            it.seq() == s@,
    {
        v.push(c);
    }
    v
}

/// The characters `from..to` of `s` as a text of their own.
pub(crate) fn slice_text(s: &String, from: usize, to: usize) -> (r: String)
    requires
        from <= to <= s@.len(),
    ensures
        r@ == s@.subrange(from as int, to as int),
{
    s.as_str().substring_char(from, to).to_owned()
}

} // verus!
