//! Character-level primitives shared by the manifest and changelog readers.
//!
//! Specifications speak of a text as a `Seq<char>`. The executable
//! functions work on a `Vec<char>` and a window `[lo, hi)` into it, and
//! return positions, so that a caller can cut the result out of the `&str`
//! the characters came from.

use vstd::prelude::*;
use vstd::string::*;

verus! {

/// The Unicode `White_Space` code points, which is what `str::trim` strips.
pub open spec fn is_whitespace(c: char) -> bool {
    let u = c as u32;
    ||| 0x09 <= u <= 0x0d
    ||| u == 0x20
    ||| u == 0x85
    ||| u == 0xa0
    ||| u == 0x1680
    ||| 0x2000 <= u <= 0x200a
    ||| u == 0x2028
    ||| u == 0x2029
    ||| u == 0x202f
    ||| u == 0x205f
    ||| u == 0x3000
}

/// Space, tab, line feed, form feed and carriage return: the separators of
/// `str::split_ascii_whitespace`.
pub open spec fn is_ascii_whitespace(c: char) -> bool {
    c == ' ' || c == '\t' || c == '\n' || c == '\x0C' || c == '\r'
}

/// Whether `char::is_alphanumeric` holds of `c`: the Unicode `Alphabetic`
/// property or one of the numeric general categories.
pub uninterp spec fn is_alphanumeric(c: char) -> bool;

/// `char::is_alphanumeric`. The tables behind it are not restated here: the
/// contract only gives the answer its name.
#[verifier::external_body]
pub(crate) fn char_is_alphanumeric(c: char) -> (b: bool)
    ensures
        b == is_alphanumeric(c),
{
    c.is_alphanumeric()
}

/// A set of characters that the scanners can look for or skip.
#[derive(Clone, Copy, Debug)]
pub enum CharClass {
    /// One given character.
    Is(char),
    /// Unicode white space.
    Whitespace,
    /// ASCII white space.
    AsciiWhitespace,
    /// Letters and digits of any script.
    Alphanumeric,
}

impl CharClass {
    pub open spec fn has(self, c: char) -> bool {
        match self {
            CharClass::Is(x) => c == x,
            CharClass::Whitespace => is_whitespace(c),
            CharClass::AsciiWhitespace => is_ascii_whitespace(c),
            CharClass::Alphanumeric => is_alphanumeric(c),
        }
    }

    pub fn contains(&self, c: char) -> (b: bool)
        ensures
            b == self.has(c),
    {
        match self {
            CharClass::Is(x) => c == *x,
            CharClass::Whitespace => {
                let u: u32 = c as u32;
                (0x09 <= u && u <= 0x0d) || u == 0x20 || u == 0x85 || u == 0xa0 || u == 0x1680 || (
                0x2000 <= u && u <= 0x200a) || u == 0x2028 || u == 0x2029 || u == 0x202f || u
                    == 0x205f || u == 0x3000
            },
            CharClass::AsciiWhitespace => c == ' ' || c == '\t' || c == '\n' || c == '\x0C' || c
                == '\r',
            CharClass::Alphanumeric => char_is_alphanumeric(c),
        }
    }
}

/// The first position at or after `i` whose character is in `class` exactly
/// when `want` says so, or the end of `s` where there is none.
pub open spec fn scan(s: Seq<char>, i: int, class: CharClass, want: bool) -> int
    decreases s.len() - i,
{
    if 0 <= i < s.len() && class.has(s[i]) != want {
        scan(s, i + 1, class, want)
    } else {
        i
    }
}

/// Like `scan`, leftwards: the last position at or before `i` that is `0` or
/// follows a character which is in `class` exactly when `want` says so.
pub open spec fn scan_back(s: Seq<char>, i: int, class: CharClass, want: bool) -> int
    decreases i,
{
    if 0 < i <= s.len() && class.has(s[i - 1]) != want {
        scan_back(s, i - 1, class, want)
    } else {
        i
    }
}

pub proof fn lemma_scan(s: Seq<char>, i: int, class: CharClass, want: bool)
    requires
        0 <= i <= s.len(),
    ensures
        i <= scan(s, i, class, want) <= s.len(),
        forall|k: int| i <= k < scan(s, i, class, want) ==> class.has(#[trigger] s[k]) != want,
        scan(s, i, class, want) < s.len() ==> class.has(s[scan(s, i, class, want)]) == want,
    decreases s.len() - i,
{
    if i < s.len() && class.has(s[i]) != want {
        lemma_scan(s, i + 1, class, want);
    }
}

/// `scan` is the only position with the properties that `lemma_scan` gives.
pub proof fn lemma_scan_unique(s: Seq<char>, i: int, class: CharClass, want: bool, r: int)
    requires
        0 <= i <= r <= s.len(),
        forall|k: int| i <= k < r ==> class.has(#[trigger] s[k]) != want,
        r < s.len() ==> class.has(s[r]) == want,
    ensures
        scan(s, i, class, want) == r,
    decreases r - i,
{
    if i < r {
        lemma_scan_unique(s, i + 1, class, want, r);
    }
}

pub proof fn lemma_scan_back(s: Seq<char>, i: int, class: CharClass, want: bool)
    requires
        0 <= i <= s.len(),
    ensures
        0 <= scan_back(s, i, class, want) <= i,
        forall|k: int|
            scan_back(s, i, class, want) <= k < i ==> class.has(#[trigger] s[k]) != want,
        scan_back(s, i, class, want) > 0 ==> class.has(s[scan_back(s, i, class, want) - 1])
            == want,
    decreases i,
{
    if 0 < i && class.has(s[i - 1]) != want {
        lemma_scan_back(s, i - 1, class, want);
    }
}

pub proof fn lemma_scan_back_unique(s: Seq<char>, i: int, class: CharClass, want: bool, r: int)
    requires
        0 <= r <= i <= s.len(),
        forall|k: int| r <= k < i ==> class.has(#[trigger] s[k]) != want,
        r > 0 ==> class.has(s[r - 1]) == want,
    ensures
        scan_back(s, i, class, want) == r,
    decreases i - r,
{
    if r < i {
        lemma_scan_back_unique(s, i - 1, class, want, r);
    }
}

/// Scanning a window of a text is scanning the text, as long as the scan
/// stays inside the window.
pub proof fn lemma_scan_window(
    s: Seq<char>,
    lo: int,
    hi: int,
    i: int,
    class: CharClass,
    want: bool,
)
    requires
        0 <= lo <= i <= hi <= s.len(),
    ensures
        scan(s.subrange(lo, hi), i - lo, class, want) == if scan(s, i, class, want) < hi {
            scan(s, i, class, want) - lo
        } else {
            hi - lo
        },
{
    let w = s.subrange(lo, hi);
    lemma_scan(s, i, class, want);
    let r = if scan(s, i, class, want) < hi {
        scan(s, i, class, want)
    } else {
        hi
    };
    assert forall|k: int| i - lo <= k < r - lo implies class.has(#[trigger] w[k]) != want by {
        assert(w[k] == s[k + lo]);
    }
    lemma_scan_unique(w, i - lo, class, want, r - lo);
}

/// The position that `scan` finds in `v[..hi]` from `lo` on. Seen from any
/// window of `v` that holds `[lo, hi)` and ends at `hi`, it is the position
/// that `scan` finds there.
pub fn find(v: &Vec<char>, lo: usize, hi: usize, class: CharClass, want: bool) -> (r: usize)
    requires
        lo <= hi <= v.len(),
    ensures
        lo <= r <= hi,
        forall|base: int|
            0 <= base <= lo ==> r == base + scan(
                #[trigger] v@.subrange(base, hi as int),
                lo - base,
                class,
                want,
            ),
        forall|k: int| lo <= k < r ==> class.has(#[trigger] v@[k]) != want,
        r < hi ==> class.has(v@[r as int]) == want,
{
    let mut r = lo;
    while r < hi && class.contains(v[r]) != want
        invariant
            lo <= r <= hi <= v.len(),
            forall|k: int| lo <= k < r ==> class.has(#[trigger] v@[k]) != want,
        decreases hi - r,
    {
        r += 1;
    }
    proof {
        assert forall|base: int| 0 <= base <= lo implies r == base + scan(
            #[trigger] v@.subrange(base, hi as int),
            lo - base,
            class,
            want,
        ) by {
            let s = v@.subrange(base, hi as int);
            assert forall|k: int| lo - base <= k < r - base implies class.has(#[trigger] s[k])
                != want by {
                assert(s[k] == v@[k + base]);
            }
            lemma_scan_unique(s, lo - base, class, want, r - base);
        }
    }
    r
}

/// The position in the window `v[lo..hi]` that `scan_back` finds from its end.
pub fn find_back(v: &Vec<char>, lo: usize, hi: usize, class: CharClass, want: bool) -> (r: usize)
    requires
        lo <= hi <= v.len(),
    ensures
        lo <= r <= hi,
        r == lo + scan_back(v@.subrange(lo as int, hi as int), hi - lo, class, want),
        forall|k: int| r <= k < hi ==> class.has(#[trigger] v@[k]) != want,
        r > lo ==> class.has(v@[r - 1]) == want,
{
    let mut r = hi;
    while r > lo && class.contains(v[r - 1]) != want
        invariant
            lo <= r <= hi <= v.len(),
            forall|k: int| r <= k < hi ==> class.has(#[trigger] v@[k]) != want,
        decreases r,
    {
        r -= 1;
    }
    proof {
        let s = v@.subrange(lo as int, hi as int);
        assert forall|k: int| r - lo <= k < hi - lo implies class.has(#[trigger] s[k]) != want by {
            assert(s[k] == v@[k + lo]);
        }
        if r > lo {
            assert(s[r - lo - 1] == v@[r - 1]);
        }
        lemma_scan_back_unique(s, hi - lo, class, want, r - lo);
    }
    r
}

/// Where the text of `s` begins once leading white space is dropped.
pub open spec fn trim_lo(s: Seq<char>) -> int {
    scan(s, 0, CharClass::Whitespace, false)
}

/// Where the text of `s` ends once trailing white space is dropped; never
/// before `trim_lo(s)`.
pub open spec fn trim_hi(s: Seq<char>) -> int {
    let hi = scan_back(s, s.len() as int, CharClass::Whitespace, false);
    if hi < trim_lo(s) {
        trim_lo(s)
    } else {
        hi
    }
}

/// `s` without its leading and trailing white space.
pub open spec fn trim(s: Seq<char>) -> Seq<char> {
    s.subrange(trim_lo(s), trim_hi(s))
}

pub proof fn lemma_trim_bounds(s: Seq<char>)
    ensures
        0 <= trim_lo(s) <= trim_hi(s) <= s.len(),
        forall|k: int| 0 <= k < trim_lo(s) ==> is_whitespace(#[trigger] s[k]),
        forall|k: int| trim_hi(s) <= k < s.len() ==> is_whitespace(#[trigger] s[k]),
        trim_lo(s) < trim_hi(s) ==> !is_whitespace(s[trim_lo(s)]) && !is_whitespace(
            s[trim_hi(s) - 1],
        ),
{
    lemma_scan(s, 0, CharClass::Whitespace, false);
    lemma_scan_back(s, s.len() as int, CharClass::Whitespace, false);
}

/// The window of `v[lo..hi]` that is left when white space is trimmed from
/// both of its ends.
pub fn trim_range(v: &Vec<char>, lo: usize, hi: usize) -> (r: (usize, usize))
    requires
        lo <= hi <= v.len(),
    ensures
        lo <= r.0 <= r.1 <= hi,
        r.0 == lo + trim_lo(v@.subrange(lo as int, hi as int)),
        r.1 == lo + trim_hi(v@.subrange(lo as int, hi as int)),
        v@.subrange(r.0 as int, r.1 as int) == trim(v@.subrange(lo as int, hi as int)),
{
    let a = find(v, lo, hi, CharClass::Whitespace, false);
    let b = find_back(v, a, hi, CharClass::Whitespace, false);
    proof {
        let s = v@.subrange(lo as int, hi as int);
        lemma_scan_back(s, hi - lo, CharClass::Whitespace, false);
        let back = scan_back(s, hi - lo, CharClass::Whitespace, false);
        if b > a {
            assert forall|k: int| b - lo <= k < hi - lo implies CharClass::Whitespace.has(
                #[trigger] s[k],
            ) != false by {
                assert(s[k] == v@[k + lo]);
            }
            assert(s[b - lo - 1] == v@[b - 1]);
            lemma_scan_back_unique(s, hi - lo, CharClass::Whitespace, false, b - lo);
        } else if back > a - lo {
            // Everything from `a` on is white space, so the backward scan
            // cannot stop after `a`.
            assert(s[back - 1] == v@[back - 1 + lo]);
        }
        assert(v@.subrange(a as int, b as int) =~= s.subrange(a - lo, b - lo));
    }
    (a, b)
}


/// The characters of `s`, one by one.
pub fn to_chars(s: &str) -> (v: Vec<char>)
    ensures
        v@ == s@,
{
    let mut v: Vec<char> = Vec::new();
    for c in it: s.chars()
        invariant
            v@ == it.seq().take(it.index() as int),
    {
        v.push(c);
    }
    v
}

/// Whether the window `v[lo..hi]` spells `w`.
pub fn range_eq(v: &Vec<char>, lo: usize, hi: usize, w: &Vec<char>) -> (b: bool)
    requires
        lo <= hi <= v.len(),
    ensures
        b == (v@.subrange(lo as int, hi as int) == w@),
{
    if hi - lo != w.len() {
        return false;
    }
    let mut i: usize = 0;
    while i < w.len()
        invariant
            lo <= hi <= v.len(),
            hi - lo == w.len(),
            0 <= i <= w.len(),
            forall|k: int| 0 <= k < i ==> v@[lo + k] == w@[k],
        decreases w.len() - i,
    {
        if v[lo + i] != w[i] {
            assert(v@.subrange(lo as int, hi as int)[i as int] != w@[i as int]);
            return false;
        }
        i += 1;
    }
    assert(v@.subrange(lo as int, hi as int) =~= w@);
    true
}

/// `s` ends with `p`.
pub open spec fn has_suffix(s: Seq<char>, p: Seq<char>) -> bool {
    p.len() <= s.len() && s.subrange(s.len() - p.len(), s.len() as int) == p
}

/// `p` occurs in `s` as a contiguous run of characters.
pub open spec fn has_substring(s: Seq<char>, p: Seq<char>) -> bool {
    exists|i: int| 0 <= i <= s.len() - p.len() && #[trigger] s.subrange(i, i + p.len()) == p
}

pub fn ends_with(v: &Vec<char>, lo: usize, hi: usize, p: &Vec<char>) -> (b: bool)
    requires
        lo <= hi <= v.len(),
    ensures
        b == has_suffix(v@.subrange(lo as int, hi as int), p@),
{
    if p.len() > hi - lo {
        return false;
    }
    proof {
        assert(v@.subrange(lo as int, hi as int).subrange(hi - lo - p.len(), hi - lo) =~= v@.subrange(
            hi - p.len(),
            hi as int,
        ));
    }
    range_eq(v, hi - p.len(), hi, p)
}

pub fn contains(v: &Vec<char>, p: &Vec<char>) -> (b: bool)
    ensures
        b == has_substring(v@, p@),
{
    if p.len() > v.len() {
        return false;
    }
    let last: usize = v.len() - p.len();
    let mut i: usize = 0;
    loop
        invariant
            last == v.len() - p.len(),
            0 <= i <= last,
            forall|k: int| 0 <= k < i ==> #[trigger] v@.subrange(k, k + p.len()) != p@,
        decreases last - i,
    {
        if range_eq(v, i, i + p.len(), p) {
            return true;
        }
        if i == last {
            return false;
        }
        i += 1;
    }
}

/// `a` comes strictly before `b` when the two are compared character by
/// character from position `i` on, a proper prefix coming first. This is the
/// order of `str` and `String`.
pub open spec fn lex_lt_from(a: Seq<char>, b: Seq<char>, i: int) -> bool
    decreases a.len() - i,
{
    if i < 0 || i >= b.len() {
        false
    } else if i >= a.len() {
        true
    } else if a[i] != b[i] {
        a[i] < b[i]
    } else {
        lex_lt_from(a, b, i + 1)
    }
}

pub open spec fn lex_lt(a: Seq<char>, b: Seq<char>) -> bool {
    lex_lt_from(a, b, 0)
}

pub open spec fn lex_le(a: Seq<char>, b: Seq<char>) -> bool {
    !lex_lt(b, a)
}

pub fn chars_lt(a: &Vec<char>, b: &Vec<char>) -> (r: bool)
    ensures
        r == lex_lt(a@, b@),
{
    let mut i: usize = 0;
    while i < a.len() && i < b.len()
        invariant
            0 <= i <= a.len(),
            i <= b.len(),
            lex_lt(a@, b@) == lex_lt_from(a@, b@, i as int),
        decreases a.len() - i,
    {
        if a[i] != b[i] {
            return a[i] < b[i];
        }
        i += 1;
    }
    i < b.len()
}

/// `c` with an ASCII capital letter replaced by its small letter.
pub open spec fn ascii_lower(c: char) -> char {
    if 'A' <= c && c <= 'Z' {
        ((c as u8) + 32) as char
    } else {
        c
    }
}

/// `s` with each ASCII capital letter replaced by its small letter.
pub open spec fn lowercase(s: Seq<char>) -> Seq<char> {
    Seq::new(s.len(), |i: int| ascii_lower(s[i]))
}

pub fn to_lowercase(v: &Vec<char>) -> (r: Vec<char>)
    ensures
        r@ == lowercase(v@),
{
    let mut r: Vec<char> = Vec::new();
    let mut i: usize = 0;
    while i < v.len()
        invariant
            0 <= i <= v.len(),
            r@.len() == i,
            forall|k: int| 0 <= k < i ==> r@[k] == ascii_lower(v@[k]),
        decreases v.len() - i,
    {
        let c = v[i];
        if 'A' <= c && c <= 'Z' {
            let b: u8 = c as u8;
            r.push((b + 32) as char);
        } else {
            r.push(c);
        }
        i += 1;
    }
    assert(r@ =~= lowercase(v@));
    r
}


/// Where the line that holds position `i` ends: at the next line feed, or
/// at the end of `s`.
pub open spec fn line_end(s: Seq<char>, i: int) -> int {
    scan(s, i, CharClass::Is('\n'), true)
}

/// Where the line after the one that holds position `i` begins: just behind
/// the line feed, or at the end of `s` where no line follows.
pub open spec fn line_next(s: Seq<char>, i: int) -> int {
    if line_end(s, i) < s.len() {
        line_end(s, i) + 1
    } else {
        s.len() as int
    }
}

pub proof fn lemma_line_bounds(s: Seq<char>, i: int)
    requires
        0 <= i <= s.len(),
    ensures
        i <= line_end(s, i) <= line_next(s, i) <= s.len(),
        i < s.len() ==> i < line_next(s, i),
        forall|k: int| i <= k < line_end(s, i) ==> #[trigger] s[k] != '\n',
        line_end(s, i) < s.len() ==> s[line_end(s, i)] == '\n',
{
    lemma_scan(s, i, CharClass::Is('\n'), true);
}


/// The words of `s` from position `i` on: the longest runs of characters
/// outside `separators`, in order.
pub open spec fn words_from(s: Seq<char>, i: int, separators: CharClass) -> Seq<Seq<char>>
    decreases s.len() - i,
{
    let start = scan(s, i, separators, false);
    if 0 <= i && start < s.len() {
        let end = scan(s, start, separators, true);
        proof {
            lemma_scan(s, i, separators, false);
            lemma_scan(s, start, separators, true);
        }
        seq![s.subrange(start, end)] + words_from(s, end, separators)
    } else {
        Seq::empty()
    }
}

/// The words of `s`.
pub open spec fn words(s: Seq<char>, separators: CharClass) -> Seq<Seq<char>> {
    words_from(s, 0, separators)
}

/// The texts of `parts`.
pub open spec fn str_views(parts: Seq<&str>) -> Seq<Seq<char>> {
    Seq::new(parts.len(), |i: int| parts[i]@)
}

/// Splits `text` into its words.
pub fn split_words<'a>(text: &'a str, separators: CharClass) -> (r: Vec<&'a str>)
    ensures
        str_views(r@) == words(text@, separators),
{
    let v = to_chars(text);
    let n = v.len();
    let mut out: Vec<&'a str> = Vec::new();
    let mut i: usize = 0;
    assert(v@.subrange(0, n as int) =~= v@);
    loop
        invariant
            n == v.len(),
            v@ == text@,
            v@.subrange(0, n as int) == v@,
            0 <= i <= n,
            words(v@, separators) == str_views(out@) + words_from(v@, i as int, separators),
        decreases n - i,
    {
        let start = find(&v, i, n, separators, false);
        if start >= n {
            assert(str_views(out@) + Seq::<Seq<char>>::empty() =~= str_views(out@));
            return out;
        }
        let end = find(&v, start, n, separators, true);
        let ghost before = str_views(out@);
        let word = text.substring_char(start, end);
        out.push(word);
        proof {
            assert(str_views(out@) =~= before.push(word@));
            assert(before.push(word@) + words_from(v@, end as int, separators) =~= before + (
            seq![word@] + words_from(v@, end as int, separators)));
        }
        i = end;
    }
}

} // verus!
