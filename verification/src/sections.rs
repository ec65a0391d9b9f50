//! Cutting a text into sections at its header lines.
//!
//! Manifests and change documents are both split the same way: a section
//! begins with a header line and reaches to the next header line of the same
//! kind, or to the end of the text. Only what counts as a header differs.

use vstd::prelude::*;
use crate::markdown::{heading, heading_range};
use crate::text::{find, lemma_line_bounds, line_end, line_next, trim, trim_range, CharClass};
use crate::toml::{table_header, table_header_range};

verus! {

/// What counts as a header line.
#[derive(Clone, Copy, Debug)]
pub enum HeaderSyntax {
    /// The line that opens a table of a manifest.
    Table,
    /// A heading of exactly so many marks.
    Heading(u8),
}

impl HeaderSyntax {
    /// The name that `line` carries, where it is a header.
    pub open spec fn header(self, line: Seq<char>) -> Option<Seq<char>> {
        match self {
            HeaderSyntax::Table => table_header(line),
            HeaderSyntax::Heading(level) => heading(level, line),
        }
    }

    /// Where in the line `v[lo..hi]` the name stands, if the line is a header.
    pub fn header_range(&self, v: &Vec<char>, lo: usize, hi: usize) -> (r: Option<(usize, usize)>)
        requires
            lo <= hi <= v.len(),
        ensures
            match r {
                Some((a, b)) => lo <= a <= b <= hi && self.header(
                    v@.subrange(lo as int, hi as int),
                ) == Some(v@.subrange(a as int, b as int)),
                None => self.header(v@.subrange(lo as int, hi as int)) is None,
            },
    {
        match self {
            HeaderSyntax::Table => table_header_range(v, lo, hi),
            HeaderSyntax::Heading(level) => heading_range(*level, v, lo, hi),
        }
    }
}

/// The line of `text` that starts at `i`, without its line feed.
pub open spec fn line_at(text: Seq<char>, i: int) -> Seq<char> {
    text.subrange(i, line_end(text, i))
}

/// The positions at which the header lines of `text` start, in order, from
/// the line that starts at `i` on.
pub open spec fn header_starts(text: Seq<char>, syntax: HeaderSyntax, i: int) -> Seq<int>
    decreases text.len() - i,
{
    if i < 0 || i >= text.len() {
        Seq::empty()
    } else {
        proof {
            lemma_line_bounds(text, i);
        }
        let rest = header_starts(text, syntax, line_next(text, i));
        if syntax.header(line_at(text, i)) is Some {
            seq![i] + rest
        } else {
            rest
        }
    }
}

/// The section whose header line starts at `start` and whose text ends
/// before `end`: the name on the header, and what stands between the header
/// line and `end`, trimmed.
pub open spec fn section(text: Seq<char>, syntax: HeaderSyntax, start: int, end: int) -> (
    Seq<char>,
    Seq<char>,
) {
    (syntax.header(line_at(text, start))->0, trim(text.subrange(line_next(text, start), end)))
}

/// Where the section ends that begins at the `k`-th of `starts`: at the
/// next of them, or at the end of the text.
pub open spec fn section_end(text: Seq<char>, starts: Seq<int>, k: int) -> int {
    if k + 1 < starts.len() {
        starts[k + 1]
    } else {
        text.len() as int
    }
}

/// The sections of `text`, each as its name and its body.
pub open spec fn sections(text: Seq<char>, syntax: HeaderSyntax) -> Seq<(Seq<char>, Seq<char>)> {
    let starts = header_starts(text, syntax, 0);
    Seq::new(
        starts.len(),
        |k: int| section(text, syntax, starts[k], section_end(text, starts, k)),
    )
}

/// Where a section's name and body stand in the text.
#[derive(Clone, Copy, Debug)]
pub struct Span {
    pub name_lo: usize,
    pub name_hi: usize,
    pub body_lo: usize,
    pub body_hi: usize,
}

impl Span {
    /// The span lies within a text of `n` characters.
    pub open spec fn fits(self, n: nat) -> bool {
        self.name_lo <= self.name_hi <= n && self.body_lo <= self.body_hi <= n
    }

    /// The name and the body that the span cuts out of `text`.
    pub open spec fn cut(self, text: Seq<char>) -> (Seq<char>, Seq<char>) {
        (
            text.subrange(self.name_lo as int, self.name_hi as int),
            text.subrange(self.body_lo as int, self.body_hi as int),
        )
    }
}

/// The header starts are line starts of the text, in rising order.
pub proof fn lemma_header_starts(text: Seq<char>, syntax: HeaderSyntax, i: int)
    requires
        0 <= i <= text.len(),
    ensures
        forall|k: int|
            0 <= k < header_starts(text, syntax, i).len() ==> i <= #[trigger] header_starts(
                text,
                syntax,
                i,
            )[k] < text.len(),
        forall|k: int, l: int|
            0 <= k < l < header_starts(text, syntax, i).len() ==> line_next(
                text,
                #[trigger] header_starts(text, syntax, i)[k],
            ) <= #[trigger] header_starts(text, syntax, i)[l],
        forall|k: int|
            0 <= k < header_starts(text, syntax, i).len() ==> syntax.header(
                line_at(text, #[trigger] header_starts(text, syntax, i)[k]),
            ) is Some,
    decreases text.len() - i,
{
    if i < text.len() {
        lemma_line_bounds(text, i);
        lemma_header_starts(text, syntax, line_next(text, i));
    }
}

/// Finds the sections of `v`.
pub fn split(v: &Vec<char>, syntax: HeaderSyntax) -> (r: Vec<Span>)
    ensures
        r@.len() == sections(v@, syntax).len(),
        forall|k: int|
            0 <= k < r@.len() ==> (#[trigger] r@[k]).fits(v@.len()) && r@[k].cut(v@) == sections(
                v@,
                syntax,
            )[k],
{
    let n = v.len();
    let mut out: Vec<Span> = Vec::new();
    // The name of the section that is open, and where its body starts.
    let mut current: Option<(usize, usize, usize)> = None;
    let ghost mut found: Seq<int> = Seq::empty();
    let mut i: usize = 0;
    while i < n
        invariant
            n == v.len(),
            0 <= i <= n,
            header_starts(v@, syntax, 0) == found + header_starts(v@, syntax, i as int),
            forall|k: int| 0 <= k < found.len() ==> 0 <= #[trigger] found[k] < i,
            current is Some <==> found.len() > 0,
            found.len() > 0 ==> out@.len() == found.len() - 1,
            found.len() == 0 ==> out@.len() == 0,
            forall|k: int|
                0 <= k < out@.len() ==> (#[trigger] out@[k]).fits(v@.len()) && out@[k].cut(v@)
                    == section(v@, syntax, found[k], found[k + 1]),
            match current {
                Some((a, b, body)) => a <= b <= n && body <= i && body == line_next(
                    v@,
                    found.last(),
                ) && syntax.header(line_at(v@, found.last())) == Some(
                    v@.subrange(a as int, b as int),
                ),
                None => true,
            },
        decreases n - i,
    {
        let end = find(v, i, n, CharClass::Is('\n'), true);
        proof {
            assert(v@.subrange(0, n as int) =~= v@);
            lemma_line_bounds(v@, i as int);
        }
        let next = if end < n {
            end + 1
        } else {
            n
        };
        match syntax.header_range(v, i, end) {
            Some((a, b)) => {
                match current {
                    Some((pa, pb, body)) => {
                        let (ba, bb) = trim_range(v, body, i);
                        out.push(Span { name_lo: pa, name_hi: pb, body_lo: ba, body_hi: bb });
                    },
                    None => {},
                }
                current = Some((a, b, next));
                proof {
                    assert(found.push(i as int) + header_starts(v@, syntax, next as int) =~= found
                        + header_starts(v@, syntax, i as int));
                    found = found.push(i as int);
                }
            },
            None => {},
        }
        i = next;
    }
    match current {
        Some((pa, pb, body)) => {
            let (ba, bb) = trim_range(v, body, n);
            out.push(Span { name_lo: pa, name_hi: pb, body_lo: ba, body_hi: bb });
        },
        None => {},
    }
    proof {
        assert(header_starts(v@, syntax, 0) =~= found);
        assert(sections(v@, syntax).len() == found.len());
    }
    out
}

} // verus!
