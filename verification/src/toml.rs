//! A line-oriented reader for the parts of a manifest that the release
//! logic needs: scalar fields and the bodies of the top-level tables.
//!
//! It is no TOML parser. A field is read from one line of the form
//! `key = value`, with white space around the `=`; a string ends at the
//! next `"`, so strings that span lines and strings that hold an escaped
//! `"` are out of its reach.

use vstd::prelude::*;
use vstd::string::*;
use crate::sections::{sections, split, HeaderSyntax};
use crate::text::{
    find, lemma_line_bounds, line_end, line_next, range_eq, scan, to_chars, trim, trim_range,
    CharClass,
};

verus! {

/// A scalar as the specifications see it.
pub enum Scalar {
    Str(Seq<char>),
    Bool(bool),
}

/// A scalar read from a manifest.
pub enum Value<'a> {
    Str(&'a str),
    Bool(bool),
}

impl<'a> View for Value<'a> {
    type V = Scalar;

    open spec fn view(&self) -> Scalar {
        match self {
            Value::Str(s) => Scalar::Str(s@),
            Value::Bool(b) => Scalar::Bool(*b),
        }
    }
}

impl<'a> Value<'a> {
    /// The string, where the value is one.
    pub fn as_str(&self) -> (r: Option<&'a str>)
        ensures
            match *self {
                Value::Str(s) => r == Some(s),
                Value::Bool(_) => r is None,
            },
    {
        match self {
            Value::Str(v) => Some(*v),
            Value::Bool(_) => None,
        }
    }
}

/// Why a field could not be read.
#[derive(Clone, Copy, Debug, PartialEq, Eq, Structural)]
pub enum TomlError {
    /// No line binds the field to a string or a boolean.
    NotFound,
    /// The line that binds the field opens a string and does not close it.
    UnclosedString,
}

/// What a line binds, where its second word is `=`: its first word, and
/// what follows the `=` up to the end of the line, each trimmed. Words are
/// separated by ASCII white space.
pub open spec fn binding(line: Seq<char>) -> Option<(Seq<char>, Seq<char>)> {
    let k0 = scan(line, 0, CharClass::AsciiWhitespace, false);
    let k1 = scan(line, k0, CharClass::AsciiWhitespace, true);
    let e0 = scan(line, k1, CharClass::AsciiWhitespace, false);
    let e1 = scan(line, e0, CharClass::AsciiWhitespace, true);
    if line.subrange(e0, e1) == seq!['='] {
        Some((trim(line.subrange(k0, k1)), trim(line.subrange(e1, line.len() as int))))
    } else {
        None
    }
}

/// The boolean that `token` spells, if it spells one.
pub open spec fn boolean(token: Seq<char>) -> Option<bool> {
    if token == "true"@ {
        Some(true)
    } else if token == "false"@ {
        Some(false)
    } else {
        None
    }
}

/// The scalar that a value begins with, if it begins with one.
///
/// A value that opens with `"` is a string: the text up to the next `"`.
/// What follows the closing `"` is left aside; without one, the string is
/// not closed. Any other value goes by the letters and digits that it
/// begins with: `true` and `false` are the booleans, and anything else is
/// no scalar.
pub open spec fn scalar(value: Seq<char>) -> Option<Result<Scalar, TomlError>> {
    if value.len() > 0 && value[0] == '"' {
        let close = scan(value, 1, CharClass::Is('"'), true);
        if close < value.len() {
            Some(Ok(Scalar::Str(value.subrange(1, close))))
        } else {
            Some(Err(TomlError::UnclosedString))
        }
    } else {
        match boolean(value.take(scan(value, 0, CharClass::Alphanumeric, false))) {
            Some(b) => Some(Ok(Scalar::Bool(b))),
            None => None,
        }
    }
}

/// What `line` says of the field `name`: nothing, a scalar, or an error.
pub open spec fn field_on_line(line: Seq<char>, name: Seq<char>) -> Option<
    Result<Scalar, TomlError>,
> {
    match binding(line) {
        Some((key, value)) => if key == name {
            scalar(value)
        } else {
            None
        },
        None => None,
    }
}

/// The first thing that a line of `text`, from the line that starts at `i`
/// on, says of the field `name`.
pub open spec fn lookup_from(text: Seq<char>, name: Seq<char>, i: int) -> Result<Scalar, TomlError>
    decreases text.len() - i,
{
    if i < 0 || i >= text.len() {
        Err(TomlError::NotFound)
    } else {
        proof {
            lemma_line_bounds(text, i);
        }
        match field_on_line(text.subrange(i, line_end(text, i)), name) {
            Some(r) => r,
            None => lookup_from(text, name, line_next(text, i)),
        }
    }
}

/// The value of the field `name` in the manifest `text`.
pub open spec fn lookup(text: Seq<char>, name: Seq<char>) -> Result<Scalar, TomlError> {
    lookup_from(text, name, 0)
}

/// The boolean that the window `v[a..t]` spells, if it spells one.
pub fn boolean_token(v: &Vec<char>, a: usize, t: usize) -> (r: Option<bool>)
    requires
        a <= t <= v.len(),
    ensures
        r == boolean(v@.subrange(a as int, t as int)),
{
    if range_eq(v, a, t, &to_chars("true")) {
        Some(true)
    } else if range_eq(v, a, t, &to_chars("false")) {
        Some(false)
    } else {
        None
    }
}

/// What `scan_field` found on a line.
enum Hit {
    Nothing,
    Str(usize, usize),
    Bool(bool),
    Unclosed,
}

/// Reads the line `v[lo..hi]` for the field `name`.
fn scan_field(v: &Vec<char>, lo: usize, hi: usize, name: &Vec<char>) -> (hit: Hit)
    requires
        lo <= hi <= v.len(),
    ensures
        match hit {
            Hit::Nothing => field_on_line(v@.subrange(lo as int, hi as int), name@) is None,
            Hit::Str(a, b) => lo <= a <= b <= hi && field_on_line(
                v@.subrange(lo as int, hi as int),
                name@,
            ) == Some(Ok::<Scalar, TomlError>(Scalar::Str(v@.subrange(a as int, b as int)))),
            Hit::Bool(x) => field_on_line(v@.subrange(lo as int, hi as int), name@) == Some(
                Ok::<Scalar, TomlError>(Scalar::Bool(x)),
            ),
            Hit::Unclosed => field_on_line(v@.subrange(lo as int, hi as int), name@) == Some(
                Err::<Scalar, TomlError>(TomlError::UnclosedString),
            ),
        },
{
    let ghost line = v@.subrange(lo as int, hi as int);
    let k0 = find(v, lo, hi, CharClass::AsciiWhitespace, false);
    let k1 = find(v, k0, hi, CharClass::AsciiWhitespace, true);
    let e0 = find(v, k1, hi, CharClass::AsciiWhitespace, false);
    let e1 = find(v, e0, hi, CharClass::AsciiWhitespace, true);
    proof {
        assert(line.subrange(e0 - lo, e1 - lo) =~= v@.subrange(e0 as int, e1 as int));
        assert(line.subrange(k0 - lo, k1 - lo) =~= v@.subrange(k0 as int, k1 as int));
        assert(line.subrange(e1 - lo, line.len() as int) =~= v@.subrange(e1 as int, hi as int));
    }
    if !(e1 - e0 == 1 && v[e0] == '=') {
        assert(v@.subrange(e0 as int, e1 as int) != seq!['=']) by {
            if e1 - e0 == 1 {
                assert(v@.subrange(e0 as int, e1 as int)[0] == v@[e0 as int]);
                assert(seq!['='][0] == '=');
            } else {
                assert(seq!['='].len() == 1);
            }
        }
        return Hit::Nothing;
    }
    assert(v@.subrange(e0 as int, e1 as int) =~= seq!['=']);
    let (ka, kb) = trim_range(v, k0, k1);
    if !range_eq(v, ka, kb, name) {
        return Hit::Nothing;
    }
    let (a, b) = trim_range(v, e1, hi);
    let ghost value = v@.subrange(a as int, b as int);
    if a < b && v[a] == '"' {
        assert(value[0] == v@[a as int]);
        let close = find(v, a + 1, b, CharClass::Is('"'), true);
        if close < b {
            assert(value.subrange(1, close - a) =~= v@.subrange(a + 1, close as int));
            return Hit::Str(a + 1, close);
        }
        return Hit::Unclosed;
    }
    assert(value.len() > 0 ==> value[0] == v@[a as int]);
    let t = find(v, a, b, CharClass::Alphanumeric, false);
    assert(value.take(t - a) =~= v@.subrange(a as int, t as int));
    match boolean_token(v, a, t) {
        Some(x) => Hit::Bool(x),
        None => Hit::Nothing,
    }
}

/// The name that a line gives a table, where the line opens one: `[name]`
/// or `[[name]]`, with anything after the first `]` left aside.
pub open spec fn table_header(line: Seq<char>) -> Option<Seq<char>> {
    let t = trim(line);
    if t.len() > 0 && t[0] == '[' {
        let inner = if t.len() >= 2 && t[1] == '[' {
            t.skip(2)
        } else {
            t.skip(1)
        };
        let close = scan(inner, 0, CharClass::Is(']'), true);
        if close < inner.len() {
            Some(trim(inner.take(close)))
        } else {
            None
        }
    } else {
        None
    }
}

/// Where in the line `v[lo..hi]` the name of the table stands that the
/// line opens.
pub fn table_header_range(v: &Vec<char>, lo: usize, hi: usize) -> (r: Option<(usize, usize)>)
    requires
        lo <= hi <= v.len(),
    ensures
        match r {
            Some((a, b)) => lo <= a <= b <= hi && table_header(v@.subrange(lo as int, hi as int))
                == Some(v@.subrange(a as int, b as int)),
            None => table_header(v@.subrange(lo as int, hi as int)) is None,
        },
{
    let (a, b) = trim_range(v, lo, hi);
    let ghost t = v@.subrange(a as int, b as int);
    if a == b || v[a] != '[' {
        assert(t.len() > 0 ==> t[0] == v@[a as int]);
        return None;
    }
    assert(t[0] == v@[a as int]);
    assert(t.len() >= 2 ==> t[1] == v@[a + 1]);
    let start = if b - a >= 2 && v[a + 1] == '[' {
        a + 2
    } else {
        a + 1
    };
    assert(t.skip(start - a) =~= v@.subrange(start as int, b as int));
    let close = find(v, start, b, CharClass::Is(']'), true);
    if close == b {
        return None;
    }
    assert(v@.subrange(start as int, b as int).take(close - start) =~= v@.subrange(
        start as int,
        close as int,
    ));
    Some(trim_range(v, start, close))
}

/// The name of the table that `line` opens, if it opens one.
pub fn start_of_section_or_array<'a>(line: &'a str) -> (r: Option<&'a str>)
    ensures
        match r {
            Some(name) => table_header(line@) == Some(name@),
            None => table_header(line@) is None,
        },
{
    let v = to_chars(line);
    assert(v@.subrange(0, v.len() as int) =~= v@);
    match table_header_range(&v, 0, v.len()) {
        Some((a, b)) => Some(line.substring_char(a, b)),
        None => None,
    }
}

/// A manifest, or a part of one.
pub struct Toml<'a>(pub &'a str);

impl<'a> Toml<'a> {
    /// The scalar that the first line binding `name` gives it.
    ///
    /// A line that binds `name` to something that is neither a string nor a
    /// boolean is passed over.
    pub fn get_field(&self, name: &str) -> (r: Result<Value<'a>, TomlError>)
        ensures
            match r {
                Ok(v) => lookup(self.0@, name@) == Ok::<Scalar, TomlError>(v@),
                Err(e) => lookup(self.0@, name@) == Err::<Scalar, TomlError>(e),
            },
    {
        let text: &'a str = self.0;
        let v = to_chars(text);
        let key = to_chars(name);
        let n = v.len();
        let mut i: usize = 0;
        while i < n
            invariant
                n == v.len(),
                text == self.0,
                v@ == text@,
                key@ == name@,
                0 <= i <= n,
                lookup(v@, key@) == lookup_from(v@, key@, i as int),
            decreases n - i,
        {
            let end = find(&v, i, n, CharClass::Is('\n'), true);
            proof {
                assert(v@.subrange(0, n as int) =~= v@);
                lemma_line_bounds(v@, i as int);
            }
            match scan_field(&v, i, end, &key) {
                Hit::Nothing => {},
                Hit::Str(a, b) => {
                    return Ok(Value::Str(text.substring_char(a, b)));
                },
                Hit::Bool(x) => {
                    return Ok(Value::Bool(x));
                },
                Hit::Unclosed => {
                    return Err(TomlError::UnclosedString);
                },
            }
            i = if end < n {
                end + 1
            } else {
                n
            };
        }
        Err(TomlError::NotFound)
    }

    /// The tables of the manifest, in order: each with its name and with
    /// the text between its header line and the next, trimmed.
    pub fn sections(&self) -> (r: Vec<(&'a str, Toml<'a>)>)
        ensures
            r@.len() == sections(self.0@, HeaderSyntax::Table).len(),
            forall|k: int|
                0 <= k < r@.len() ==> ((#[trigger] r@[k]).0@, r@[k].1.0@) == sections(
                    self.0@,
                    HeaderSyntax::Table,
                )[k],
    {
        let text: &'a str = self.0;
        let v = to_chars(text);
        let spans = split(&v, HeaderSyntax::Table);
        let mut out: Vec<(&'a str, Toml<'a>)> = Vec::new();
        let mut k: usize = 0;
        while k < spans.len()
            invariant
                text == self.0,
                v@ == text@,
                0 <= k <= spans.len(),
                spans@.len() == sections(v@, HeaderSyntax::Table).len(),
                forall|j: int|
                    0 <= j < spans@.len() ==> (#[trigger] spans@[j]).fits(v@.len())
                        && spans@[j].cut(v@) == sections(v@, HeaderSyntax::Table)[j],
                out@.len() == k,
                forall|j: int|
                    0 <= j < k ==> ((#[trigger] out@[j]).0@, out@[j].1.0@) == sections(
                        v@,
                        HeaderSyntax::Table,
                    )[j],
            decreases spans.len() - k,
        {
            let span = spans[k];
            let name = text.substring_char(span.name_lo, span.name_hi);
            let body = text.substring_char(span.body_lo, span.body_hi);
            out.push((name, Toml(body)));
            k += 1;
        }
        out
    }

    /// The first table of the manifest that is called `name`.
    pub fn section(&self, name: &str) -> (r: Option<Toml<'a>>)
        ensures
            match r {
                Some(body) => table_body(self.0@, name@) == Some(body.0@),
                None => table_body(self.0@, name@) is None,
            },
    {
        let text: &'a str = self.0;
        let v = to_chars(text);
        let key = to_chars(name);
        let spans = split(&v, HeaderSyntax::Table);
        let mut k: usize = 0;
        while k < spans.len()
            invariant
                text == self.0,
                v@ == text@,
                key@ == name@,
                0 <= k <= spans.len(),
                spans@.len() == sections(v@, HeaderSyntax::Table).len(),
                forall|j: int|
                    0 <= j < spans@.len() ==> (#[trigger] spans@[j]).fits(v@.len())
                        && spans@[j].cut(v@) == sections(v@, HeaderSyntax::Table)[j],
                forall|j: int|
                    0 <= j < k ==> (#[trigger] sections(v@, HeaderSyntax::Table)[j]).0 != name@,
            decreases spans.len() - k,
        {
            let span = spans[k];
            if range_eq(&v, span.name_lo, span.name_hi, &key) {
                proof {
                    let tables = sections(v@, HeaderSyntax::Table);
                    assert(first_named(tables, name@, k as int));
                    let first = choose|j: int| first_named(tables, name@, j);
                    if first < k {
                        assert(tables[first].0 == name@);
                    } else if k < first {
                        assert(tables[k as int].0 == name@);
                    }
                }
                return Some(Toml(text.substring_char(span.body_lo, span.body_hi)));
            }
            k += 1;
        }
        proof {
            let tables = sections(v@, HeaderSyntax::Table);
            if exists|j: int| first_named(tables, name@, j) {
                let first = choose|j: int| first_named(tables, name@, j);
                assert(tables[first].0 == name@);
            }
        }
        None
    }
}

/// The body of the first table of `manifest` that is called `name`.
pub open spec fn table_body(manifest: Seq<char>, name: Seq<char>) -> Option<Seq<char>> {
    let tables = sections(manifest, HeaderSyntax::Table);
    if exists|k: int| first_named(tables, name, k) {
        Some(tables[choose|k: int| first_named(tables, name, k)].1)
    } else {
        None
    }
}

/// The `k`-th of `sections` is the first that is called `name`.
pub open spec fn first_named(sections: Seq<(Seq<char>, Seq<char>)>, name: Seq<char>, k: int) -> bool {
    &&& 0 <= k < sections.len()
    &&& sections[k].0 == name
    &&& forall|j: int| 0 <= j < k ==> (#[trigger] sections[j]).0 != name
}

} // verus!
