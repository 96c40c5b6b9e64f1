//! Character and string helpers shared by the stages.

use vstd::prelude::*;
use vstd::utf8::encode_utf8;

verus! {

/// Whether `c` has the Unicode property Alphabetic or is a Unicode number.
pub uninterp spec fn alphanumeric(c: char) -> bool;

/// Whether `c` has the Unicode property White_Space.
pub uninterp spec fn whitespace(c: char) -> bool;

/// `char::is_alphanumeric` is a fixed table lookup: its answer depends on the
/// character alone, and that answer is what `alphanumeric` names.
pub assume_specification[ char::is_alphanumeric ](c: char) -> (b: bool)
    ensures
        b == alphanumeric(c),
;

/// `char::is_whitespace` is a fixed table lookup: its answer depends on the
/// character alone, and that answer is what `whitespace` names.
pub assume_specification[ char::is_whitespace ](c: char) -> (b: bool)
    ensures
        b == whitespace(c),
;

/// `String::push` appends the one character to the end of the string.
pub assume_specification[ String::push ](s: &mut String, c: char)
    ensures
        final(s)@ == old(s)@.push(c),
;

/// The length of `s` in bytes of UTF-8.
pub fn byte_len(s: &str) -> (n: usize)
    ensures
        n == encode_utf8(s@).len(),
{
    s.as_bytes().len()
}

/// The characters of `s`, in order.
pub fn chars_of(s: &str) -> (chars: Vec<char>)
    ensures
        chars@ == s@,
{
    let mut chars: Vec<char> = Vec::new();
    for c in it: s.chars()
        invariant
            chars@ == it.seq().take(it.index() as int),
    {
        chars.push(c);
    }
    chars
}

} // verus!
