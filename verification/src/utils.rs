//! Reading a text line by line.

use vstd::prelude::*;
use vstd::string::*;
use crate::text::{find, line_end, line_next, to_chars, CharClass};

verus! {

/// Takes the first line off `text`.
///
/// A line ends at a line feed, which belongs to neither the line nor the
/// rest, or at the end of the text. An empty text has no line.
pub fn next_line<'a>(text: &mut &'a str) -> (line: Option<&'a str>)
    ensures
        old(text)@.len() == 0 ==> line is None && *final(text) == *old(text),
        old(text)@.len() > 0 ==> line is Some && line->0@ == old(text)@.subrange(
            0,
            line_end(old(text)@, 0),
        ) && final(text)@ == old(text)@.subrange(
            line_next(old(text)@, 0),
            old(text)@.len() as int,
        ),
{
    let whole: &'a str = *text;
    let chars = to_chars(whole);
    let n = chars.len();
    if n == 0 {
        return None;
    }
    let end = find(&chars, 0, n, CharClass::Is('\n'), true);
    assert(chars@.subrange(0, n as int) =~= chars@);
    let rest_from = if end < n {
        end + 1
    } else {
        n
    };
    *text = whole.substring_char(rest_from, n);
    Some(whole.substring_char(0, end))
}

} // verus!
