//! Splitting a change document into the sections under its headings.

use vstd::prelude::*;
use vstd::string::*;
use crate::sections::{sections, split, HeaderSyntax};
use crate::text::{find, scan, to_chars, trim, trim_range, CharClass};

verus! {

/// The title of the heading that `line` is, where it is one of exactly
/// `level` marks: the line, trimmed, begins with `level` times `#` and
/// then something else, or ends.
pub open spec fn heading(level: u8, line: Seq<char>) -> Option<Seq<char>> {
    let t = trim(line);
    let marks = scan(t, 0, CharClass::Is('#'), false);
    if marks > 0 && marks == level {
        Some(trim(t.skip(marks)))
    } else {
        None
    }
}

/// Where in the line `v[lo..hi]` the title stands, if the line is a
/// heading of `level` marks.
pub fn heading_range(level: u8, v: &Vec<char>, lo: usize, hi: usize) -> (r: Option<
    (usize, usize),
>)
    requires
        lo <= hi <= v.len(),
    ensures
        match r {
            Some((a, b)) => lo <= a <= b <= hi && heading(level, v@.subrange(lo as int, hi as int))
                == Some(v@.subrange(a as int, b as int)),
            None => heading(level, v@.subrange(lo as int, hi as int)) is None,
        },
{
    let (a, b) = trim_range(v, lo, hi);
    let ghost t = v@.subrange(a as int, b as int);
    let after = find(v, a, b, CharClass::Is('#'), false);
    let marks = after - a;
    if marks > 0 && marks == level as usize {
        assert(t.skip(marks as int) =~= v@.subrange(after as int, b as int));
        Some(trim_range(v, after, b))
    } else {
        None
    }
}

/// The title of the heading that `line` is, if it is one of `level` marks.
pub fn start_of_section<'a>(level: u8, line: &'a str) -> (r: Option<&'a str>)
    ensures
        match r {
            Some(title) => heading(level, line@) == Some(title@),
            None => heading(level, line@) is None,
        },
{
    let v = to_chars(line);
    assert(v@.subrange(0, v.len() as int) =~= v@);
    match heading_range(level, &v, 0, v.len()) {
        Some((a, b)) => Some(line.substring_char(a, b)),
        None => None,
    }
}

/// A change document, or a part of one.
pub struct Markdown<'a>(pub &'a str);

impl<'a> Markdown<'a> {
    /// The sections under the headings of exactly `level` marks, in order:
    /// each with its title and with the text between its heading and the
    /// next heading of that level, trimmed. Headings of other levels are
    /// part of that text.
    pub fn sections(&self, level: u8) -> (r: Vec<(&'a str, Markdown<'a>)>)
        ensures
            r@.len() == sections(self.0@, HeaderSyntax::Heading(level)).len(),
            forall|k: int|
                0 <= k < r@.len() ==> ((#[trigger] r@[k]).0@, r@[k].1.0@) == sections(
                    self.0@,
                    HeaderSyntax::Heading(level),
                )[k],
    {
        let text: &'a str = self.0;
        let v = to_chars(text);
        let spans = split(&v, HeaderSyntax::Heading(level));
        let mut out: Vec<(&'a str, Markdown<'a>)> = Vec::new();
        let mut k: usize = 0;
        while k < spans.len()
            invariant
                text == self.0,
                v@ == text@,
                0 <= k <= spans.len(),
                spans@.len() == sections(v@, HeaderSyntax::Heading(level)).len(),
                forall|j: int|
                    0 <= j < spans@.len() ==> (#[trigger] spans@[j]).fits(v@.len())
                        && spans@[j].cut(v@) == sections(v@, HeaderSyntax::Heading(level))[j],
                out@.len() == k,
                forall|j: int|
                    0 <= j < k ==> ((#[trigger] out@[j]).0@, out@[j].1.0@) == sections(
                        v@,
                        HeaderSyntax::Heading(level),
                    )[j],
            decreases spans.len() - k,
        {
            let span = spans[k];
            let title = text.substring_char(span.name_lo, span.name_hi);
            let body = text.substring_char(span.body_lo, span.body_hi);
            out.push((title, Markdown(body)));
            k += 1;
        }
        out
    }
}

} // verus!
