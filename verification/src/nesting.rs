//! How the sections of a text relate to the sections of its parts.
//!
//! The body of a section is a part of the text, cut out and trimmed. Split
//! again, at a deeper level, it yields the sections that the whole text has
//! at that level between the section's header and its end, each cut off at
//! that end.

use vstd::prelude::*;
use crate::sections::{
    header_starts, lemma_header_starts, line_at, section, section_end, sections, HeaderSyntax,
};
use crate::text::{
    is_whitespace, lemma_line_bounds, lemma_scan_back_unique, lemma_scan_unique,
    lemma_scan_window, lemma_trim_bounds, line_end, line_next, scan, trim, trim_hi, trim_lo,
    CharClass,
};

verus! {

/// Every character of `s` from `from` up to `to` is white space.
pub open spec fn blank(s: Seq<char>, from: int, to: int) -> bool {
    forall|k: int| from <= k < to && 0 <= k < s.len() ==> is_whitespace(#[trigger] s[k])
}

/// White space around a text does not change what is left when it is
/// trimmed.
pub proof fn lemma_trim_padded(s: Seq<char>, x: int, y: int)
    requires
        0 <= x <= y <= s.len(),
        blank(s, 0, x),
        blank(s, y, s.len() as int),
    ensures
        trim(s.subrange(x, y)) == trim(s),
{
    let u = s.subrange(x, y);
    lemma_trim_bounds(s);
    lemma_trim_bounds(u);
    let a = trim_lo(s);
    let b = trim_hi(s);
    if a == b {
        // Nothing but white space in `s`, and so in `u`.
        assert forall|k: int| 0 <= k < u.len() implies is_whitespace(#[trigger] u[k]) by {
            assert(u[k] == s[k + x]);
            if a <= k + x {
                assert(is_whitespace(s[k + x]));
            }
        }
        if trim_lo(u) < trim_hi(u) {
            assert(!is_whitespace(u[trim_lo(u)]));
        }
        assert(trim(u) =~= trim(s));
    } else {
        assert(!is_whitespace(s[a]));
        assert(!is_whitespace(s[b - 1]));
        assert(x <= a && b <= y);
        assert forall|k: int| 0 <= k < a - x implies CharClass::Whitespace.has(#[trigger] u[k])
            != false by {
            assert(u[k] == s[k + x]);
        }
        assert(u[a - x] == s[a]);
        lemma_scan_unique(u, 0, CharClass::Whitespace, false, a - x);
        assert forall|k: int| b - x <= k < u.len() implies CharClass::Whitespace.has(
            #[trigger] u[k],
        ) != false by {
            assert(u[k] == s[k + x]);
        }
        assert(u[b - x - 1] == s[b - 1]);
        lemma_scan_back_unique(u, u.len() as int, CharClass::Whitespace, false, b - x);
        assert(trim(u) =~= trim(s));
    }
}

/// A text of white space is trimmed to nothing.
pub proof fn lemma_trim_blank(s: Seq<char>)
    requires
        blank(s, 0, s.len() as int),
    ensures
        trim(s) == Seq::<char>::empty(),
{
    lemma_trim_bounds(s);
    if trim_lo(s) < trim_hi(s) {
        assert(!is_whitespace(s[trim_lo(s)]));
    }
    assert(trim(s) =~= Seq::<char>::empty());
}

/// Whether a line is a header shows in what is left of it when it is
/// trimmed.
pub proof fn lemma_header_of_trimmed(syntax: HeaderSyntax, line: Seq<char>, other: Seq<char>)
    requires
        trim(line) == trim(other),
    ensures
        syntax.header(line) == syntax.header(other),
{
}

/// A header is not blank.
pub proof fn lemma_header_not_blank(syntax: HeaderSyntax, line: Seq<char>)
    requires
        syntax.header(line) is Some,
    ensures
        !blank(line, 0, line.len() as int),
{
    if blank(line, 0, line.len() as int) {
        lemma_trim_blank(line);
        assert(scan(Seq::<char>::empty(), 0, CharClass::Is('#'), false) == 0);
    }
}

/// No header line starts in white space that reaches to the end of a text.
pub proof fn lemma_blank_has_no_headers(text: Seq<char>, syntax: HeaderSyntax, i: int)
    requires
        blank(text, i, text.len() as int),
    ensures
        header_starts(text, syntax, i) == Seq::<int>::empty(),
    decreases text.len() - i,
{
    if 0 <= i < text.len() {
        lemma_line_bounds(text, i);
        lemma_blank_has_no_headers(text, syntax, line_next(text, i));
        let line = line_at(text, i);
        if syntax.header(line) is Some {
            lemma_header_not_blank(syntax, line);
            let k = choose|k: int| 0 <= k < line.len() && !is_whitespace(#[trigger] line[k]);
            assert(line[k] == text[i + k]);
        }
    }
}


/// What a line is when white space is cut off the end of its text.
proof fn lemma_cut_tail_line(text: Seq<char>, syntax: HeaderSyntax, z: int, i: int)
    requires
        0 <= i < z <= text.len(),
        blank(text, z, text.len() as int),
    ensures
        syntax.header(line_at(text.take(z), i)) == syntax.header(line_at(text, i)),
        line_end(text, i) < z ==> line_next(text.take(z), i) == line_next(text, i) && line_next(
            text,
            i,
        ) <= z,
        line_end(text, i) >= z ==> line_next(text.take(z), i) == z && blank(
            text,
            line_next(text, i),
            text.len() as int,
        ),
{
    let cut = text.take(z);
    lemma_line_bounds(text, i);
    lemma_scan_window(text, 0, z, i, CharClass::Is('\n'), true);
    assert(cut =~= text.subrange(0, z));
    let end = line_end(text, i);
    if end < z {
        assert(line_at(cut, i) =~= line_at(text, i));
    } else {
        let line = line_at(text, i);
        assert(line_at(cut, i) =~= line.subrange(0, z - i));
        assert forall|k: int| z - i <= k < line.len() implies is_whitespace(#[trigger] line[k]) by {
            assert(line[k] == text[i + k]);
        }
        lemma_trim_padded(line, 0, z - i);
        lemma_header_of_trimmed(syntax, line_at(cut, i), line);
    }
}

/// White space at the end of a text holds no header line.
proof fn lemma_cut_tail_headers(text: Seq<char>, syntax: HeaderSyntax, z: int, i: int)
    requires
        0 <= i,
        0 <= z <= text.len(),
        blank(text, z, text.len() as int),
    ensures
        header_starts(text.take(z), syntax, i) == header_starts(text, syntax, i),
    decreases text.len() - i,
{
    if i >= z {
        lemma_blank_has_no_headers(text, syntax, i);
    } else {
        lemma_line_bounds(text, i);
        lemma_cut_tail_line(text, syntax, z, i);
        if line_end(text, i) < z {
            lemma_cut_tail_headers(text, syntax, z, line_next(text, i));
        } else {
            lemma_blank_has_no_headers(text, syntax, line_next(text, i));
            assert(header_starts(text.take(z), syntax, z) == Seq::<int>::empty());
        }
    }
}

/// White space at the end of a text changes none of its sections.
pub proof fn lemma_cut_tail(text: Seq<char>, syntax: HeaderSyntax, z: int)
    requires
        0 <= z <= text.len(),
        blank(text, z, text.len() as int),
    ensures
        sections(text.take(z), syntax) == sections(text, syntax),
{
    let cut = text.take(z);
    let starts = header_starts(text, syntax, 0);
    lemma_cut_tail_headers(text, syntax, z, 0);
    lemma_header_starts(text, syntax, 0);
    lemma_header_starts(cut, syntax, 0);
    assert forall|k: int| 0 <= k < starts.len() implies section(
        cut,
        syntax,
        starts[k],
        section_end(cut, starts, k),
    ) == section(text, syntax, starts[k], section_end(text, starts, k)) by {
        let h = starts[k];
        assert(h < cut.len());
        lemma_line_bounds(text, h);
        lemma_cut_tail_line(text, syntax, z, h);
        let from = line_next(text, h);
        if k + 1 < starts.len() {
            let end = starts[k + 1];
            assert(from <= end);
            assert(end < cut.len());
            assert(cut.subrange(from, end) =~= text.subrange(from, end));
        } else if line_end(text, h) < z {
            let rest = text.subrange(from, text.len() as int);
            assert(cut.subrange(from, z) =~= rest.subrange(0, z - from));
            assert forall|j: int| z - from <= j < rest.len() implies is_whitespace(
                #[trigger] rest[j],
            ) by {
                assert(rest[j] == text[from + j]);
            }
            lemma_trim_padded(rest, 0, z - from);
        } else {
            let rest = text.subrange(from, text.len() as int);
            assert forall|j: int| 0 <= j < rest.len() implies is_whitespace(#[trigger] rest[j]) by {
                assert(rest[j] == text[from + j]);
            }
            lemma_trim_blank(rest);
            lemma_trim_blank(cut.subrange(z, z));
        }
    }
    assert(sections(cut, syntax) =~= sections(text, syntax));
}


/// Where position `p` of a text lies once its first `a` characters are
/// cut off: what lay in them lies at the start.
pub open spec fn moved(p: int, a: int) -> int {
    if p > a {
        p - a
    } else {
        0
    }
}

/// The positions `starts`, each moved.
pub open spec fn all_moved(starts: Seq<int>, a: int) -> Seq<int> {
    Seq::new(starts.len(), |k: int| moved(starts[k], a))
}

/// What a line is when white space is cut off the start of its text.
proof fn lemma_cut_head_line(text: Seq<char>, syntax: HeaderSyntax, a: int, i: int)
    requires
        0 <= i < text.len(),
        0 <= a < text.len(),
        blank(text, i, a),
    ensures
        line_next(text, i) > a ==> syntax.header(line_at(text.skip(a), moved(i, a)))
            == syntax.header(line_at(text, i)) && line_next(text.skip(a), moved(i, a))
            == line_next(text, i) - a,
        line_next(text, i) <= a ==> syntax.header(line_at(text, i)) is None,
{
    let rest = text.skip(a);
    let end = line_end(text, i);
    let line = line_at(text, i);
    lemma_line_bounds(text, i);
    assert(rest =~= text.subrange(a, text.len() as int));
    if line_next(text, i) <= a {
        assert forall|k: int| 0 <= k < line.len() implies is_whitespace(#[trigger] line[k]) by {
            assert(line[k] == text[i + k]);
        }
        if syntax.header(line) is Some {
            lemma_header_not_blank(syntax, line);
        }
    } else if i > a {
        lemma_scan_window(text, a, text.len() as int, i, CharClass::Is('\n'), true);
        assert(line_at(rest, i - a) =~= line);
    } else {
        assert(end >= a);
        lemma_scan_unique(text, a, CharClass::Is('\n'), true, end);
        lemma_scan_window(text, a, text.len() as int, a, CharClass::Is('\n'), true);
        assert(line_at(rest, 0) =~= line.subrange(a - i, end - i));
        assert forall|k: int| 0 <= k < a - i implies is_whitespace(#[trigger] line[k]) by {
            assert(line[k] == text[i + k]);
        }
        lemma_trim_padded(line, a - i, end - i);
        lemma_header_of_trimmed(syntax, line_at(rest, 0), line);
    }
}

/// The header lines of a text without the white space at its start are
/// those of the text, moved.
proof fn lemma_cut_head_headers(text: Seq<char>, syntax: HeaderSyntax, a: int, i: int)
    requires
        0 <= i <= text.len(),
        0 <= a <= text.len(),
        blank(text, 0, a),
    ensures
        header_starts(text.skip(a), syntax, moved(i, a)) == all_moved(
            header_starts(text, syntax, i),
            a,
        ),
    decreases text.len() - i,
{
    let rest = text.skip(a);
    let here = header_starts(text, syntax, i);
    if i >= text.len() {
        assert(all_moved(here, a) =~= Seq::<int>::empty());
    } else if a == text.len() {
        lemma_blank_has_no_headers(text, syntax, i);
        assert(all_moved(here, a) =~= Seq::<int>::empty());
    } else {
        lemma_line_bounds(text, i);
        lemma_cut_head_line(text, syntax, a, i);
        let next = line_next(text, i);
        lemma_cut_head_headers(text, syntax, a, next);
        let after = header_starts(text, syntax, next);
        if next <= a {
            assert(here == after);
        } else if syntax.header(line_at(text, i)) is Some {
            assert(here == seq![i] + after);
            assert(all_moved(here, a) =~= seq![moved(i, a)] + all_moved(after, a));
        }
    }
}

/// White space at the start of a text changes none of its sections.
pub proof fn lemma_cut_head(text: Seq<char>, syntax: HeaderSyntax, a: int)
    requires
        0 <= a <= text.len(),
        blank(text, 0, a),
    ensures
        sections(text.skip(a), syntax) == sections(text, syntax),
{
    let rest = text.skip(a);
    let starts = header_starts(text, syntax, 0);
    let moved_starts = header_starts(rest, syntax, 0);
    lemma_cut_head_headers(text, syntax, a, 0);
    lemma_header_starts(text, syntax, 0);
    assert(rest =~= text.subrange(a, text.len() as int));
    assert forall|k: int| 0 <= k < starts.len() implies section(
        rest,
        syntax,
        moved_starts[k],
        section_end(rest, moved_starts, k),
    ) == section(text, syntax, starts[k], section_end(text, starts, k)) by {
        let h = starts[k];
        lemma_line_bounds(text, h);
        if a == text.len() {
            lemma_blank_has_no_headers(text, syntax, 0);
        }
        lemma_cut_head_line(text, syntax, a, h);
        let from = line_next(text, h);
        let end = section_end(text, starts, k);
        assert(moved_starts[k] == moved(h, a));
        if k + 1 < starts.len() {
            assert(moved_starts[k + 1] == moved(starts[k + 1], a));
            assert(from <= starts[k + 1]);
        }
        assert(section_end(rest, moved_starts, k) == end - a);
        assert(rest.subrange(from - a, end - a) =~= text.subrange(from, end));
    }
    assert(sections(rest, syntax) =~= sections(text, syntax));
}

/// Trimming a text changes none of its sections.
pub proof fn lemma_sections_of_trimmed(text: Seq<char>, syntax: HeaderSyntax)
    ensures
        sections(trim(text), syntax) == sections(text, syntax),
{
    lemma_trim_bounds(text);
    let lo = trim_lo(text);
    let hi = trim_hi(text);
    let cut = text.take(hi);
    lemma_cut_tail(text, syntax, hi);
    assert forall|k: int| 0 <= k < lo implies is_whitespace(#[trigger] cut[k]) by {
        assert(cut[k] == text[k]);
    }
    lemma_cut_head(cut, syntax, lo);
    assert(cut.skip(lo) =~= trim(text));
}


/// A line of `text` begins at `p`, or `text` ends there.
pub open spec fn is_line_boundary(text: Seq<char>, p: int) -> bool {
    0 <= p <= text.len() && (p == 0 || p == text.len() || text[p - 1] == '\n')
}

/// The positions at which the header lines of `text` start, from the line
/// that starts at `i` on and before `end`.
pub open spec fn header_starts_until(
    text: Seq<char>,
    syntax: HeaderSyntax,
    i: int,
    end: int,
) -> Seq<int>
    decreases text.len() - i,
{
    if i < 0 || i >= text.len() || i >= end {
        Seq::empty()
    } else {
        proof {
            lemma_line_bounds(text, i);
        }
        let rest = header_starts_until(text, syntax, line_next(text, i), end);
        if syntax.header(line_at(text, i)) is Some {
            seq![i] + rest
        } else {
            rest
        }
    }
}

/// The sections of `text` whose header lines start from `from` on and
/// before `end`, each cut off at `end`.
pub open spec fn sections_within(text: Seq<char>, syntax: HeaderSyntax, from: int, end: int) -> Seq<
    (Seq<char>, Seq<char>),
> {
    let starts = header_starts_until(text, syntax, from, end);
    Seq::new(
        starts.len(),
        |k: int|
            section(
                text,
                syntax,
                starts[k],
                if k + 1 < starts.len() {
                    starts[k + 1]
                } else {
                    end
                },
            ),
    )
}

/// The header lines before a line boundary and those from it on are,
/// together, the header lines of the text: `header_starts_until` picks from
/// the header lines of the text those that start before `end`.
pub proof fn lemma_headers_split(text: Seq<char>, syntax: HeaderSyntax, i: int, end: int)
    requires
        is_line_boundary(text, i),
        is_line_boundary(text, end),
        i <= end,
    ensures
        header_starts(text, syntax, i) == header_starts_until(text, syntax, i, end)
            + header_starts(text, syntax, end),
        forall|k: int|
            0 <= k < header_starts_until(text, syntax, i, end).len() ==> i
                <= #[trigger] header_starts_until(text, syntax, i, end)[k] < end,
        forall|k: int|
            0 <= k < header_starts(text, syntax, end).len() ==> end <= #[trigger] header_starts(
                text,
                syntax,
                end,
            )[k],
    decreases text.len() - i,
{
    lemma_header_starts(text, syntax, end);
    if i < text.len() && i < end {
        lemma_line_bounds(text, i);
        lemma_line_inside(text, i, end);
        lemma_headers_split(text, syntax, line_next(text, i), end);
        let rest = header_starts_until(text, syntax, line_next(text, i), end);
        assert((seq![i] + rest) + header_starts(text, syntax, end) =~= seq![i] + (rest
            + header_starts(text, syntax, end)));
    } else {
        assert(header_starts_until(text, syntax, i, end) + header_starts(text, syntax, end)
            =~= header_starts(text, syntax, end));
        if i < end {
            assert(header_starts(text, syntax, i) =~= header_starts(text, syntax, end));
        }
    }
}

/// A line that starts before a line boundary ends before it.
proof fn lemma_line_inside(text: Seq<char>, i: int, end: int)
    requires
        0 <= i < end,
        is_line_boundary(text, end),
    ensures
        line_end(text, i) <= end,
        line_next(text, i) <= end,
        is_line_boundary(text, line_next(text, i)),
        line_end(text, i) < end || end == text.len(),
{
    lemma_line_bounds(text, i);
    if end < text.len() {
        if line_end(text, i) >= end {
            assert(text[end - 1] != '\n');
        }
    }
}

/// The header lines of a part of a text that begins and ends at line
/// boundaries are the header lines of the text in that part.
proof fn lemma_part_headers(text: Seq<char>, syntax: HeaderSyntax, from: int, end: int, i: int)
    requires
        is_line_boundary(text, end),
        0 <= from <= i <= end,
    ensures
        header_starts(text.subrange(from, end), syntax, i - from) == all_moved(
            header_starts_until(text, syntax, i, end),
            from,
        ),
    decreases text.len() - i,
{
    let part = text.subrange(from, end);
    let here = header_starts_until(text, syntax, i, end);
    if i >= end {
        assert(all_moved(here, from) =~= Seq::<int>::empty());
    } else {
        lemma_line_bounds(text, i);
        lemma_line_inside(text, i, end);
        lemma_scan_window(text, from, end, i, CharClass::Is('\n'), true);
        assert(line_at(part, i - from) =~= line_at(text, i));
        let next = line_next(text, i);
        assert(line_next(part, i - from) == next - from);
        lemma_part_headers(text, syntax, from, end, next);
        let after = header_starts_until(text, syntax, next, end);
        if syntax.header(line_at(text, i)) is Some {
            assert(all_moved(here, from) =~= seq![i - from] + all_moved(after, from));
        }
    }
}

/// The sections of a part of a text that begins and ends at line
/// boundaries are the sections of the text in that part, cut off at its end.
pub proof fn lemma_sections_of_part(text: Seq<char>, syntax: HeaderSyntax, from: int, end: int)
    requires
        is_line_boundary(text, from),
        is_line_boundary(text, end),
        from <= end,
    ensures
        sections(text.subrange(from, end), syntax) == sections_within(text, syntax, from, end),
{
    let part = text.subrange(from, end);
    let starts = header_starts_until(text, syntax, from, end);
    let part_starts = header_starts(part, syntax, 0);
    lemma_part_headers(text, syntax, from, end, from);
    lemma_headers_split(text, syntax, from, end);
    lemma_header_starts(text, syntax, from);
    assert forall|k: int| 0 <= k < starts.len() implies section(
        part,
        syntax,
        part_starts[k],
        section_end(part, part_starts, k),
    ) == section(
        text,
        syntax,
        starts[k],
        if k + 1 < starts.len() {
            starts[k + 1]
        } else {
            end
        },
    ) by {
        let h = starts[k];
        let stop = if k + 1 < starts.len() {
            starts[k + 1]
        } else {
            end
        };
        assert(part_starts[k] == moved(h, from));
        lemma_line_bounds(text, h);
        lemma_line_inside(text, h, end);
        lemma_scan_window(text, from, end, h, CharClass::Is('\n'), true);
        assert(line_at(part, h - from) =~= line_at(text, h));
        let next = line_next(text, h);
        assert(line_next(part, h - from) == next - from);
        if k + 1 < starts.len() {
            assert(part_starts[k + 1] == moved(starts[k + 1], from));
            assert(header_starts(text, syntax, from)[k] == h);
            assert(header_starts(text, syntax, from)[k + 1] == starts[k + 1]);
            assert(next <= starts[k + 1]);
        }
        assert(section_end(part, part_starts, k) == stop - from);
        assert(part.subrange(next - from, stop - from) =~= text.subrange(next, stop));
    }
    assert(sections(part, syntax) =~= sections_within(text, syntax, from, end));
}

/// Splitting the body of a section again gives the sections that the
/// whole text has inside that section.
///
/// Take the `k`-th section of `text` by the headers `outer`. Its body,
/// split by the headers `inner`, has the sections of `text` by `inner`
/// whose header lines lie between the header line of that section and its
/// end, each cut off at that end.
pub proof fn lemma_resplit(text: Seq<char>, outer: HeaderSyntax, inner: HeaderSyntax, k: int)
    requires
        0 <= k < sections(text, outer).len(),
    ensures
        sections(sections(text, outer)[k].1, inner) == sections_within(
            text,
            inner,
            line_next(text, header_starts(text, outer, 0)[k]),
            section_end(text, header_starts(text, outer, 0), k),
        ),
{
    let starts = header_starts(text, outer, 0);
    let from = line_next(text, starts[k]);
    let end = section_end(text, starts, k);
    lemma_header_starts(text, outer, 0);
    lemma_line_bounds(text, starts[k]);
    lemma_starts_are_boundaries(text, outer, 0);
    assert(is_line_boundary(text, from));
    assert(is_line_boundary(text, end));
    assert(from <= end);
    lemma_sections_of_trimmed(text.subrange(from, end), inner);
    lemma_sections_of_part(text, inner, from, end);
}

/// Header lines start at line boundaries.
proof fn lemma_starts_are_boundaries(text: Seq<char>, syntax: HeaderSyntax, i: int)
    requires
        is_line_boundary(text, i),
    ensures
        forall|k: int|
            0 <= k < header_starts(text, syntax, i).len() ==> is_line_boundary(
                text,
                #[trigger] header_starts(text, syntax, i)[k],
            ),
    decreases text.len() - i,
{
    if i < text.len() {
        lemma_line_bounds(text, i);
        let next = line_next(text, i);
        lemma_starts_are_boundaries(text, syntax, next);
        let here = header_starts(text, syntax, i);
        let rest = header_starts(text, syntax, next);
        assert forall|k: int| 0 <= k < here.len() implies is_line_boundary(
            text,
            #[trigger] here[k],
        ) by {
            if syntax.header(line_at(text, i)) is Some {
                if k > 0 {
                    assert(here[k] == rest[k - 1]);
                }
            } else {
                assert(here[k] == rest[k]);
            }
        }
    }
}

} // verus!
