//! Which unit of a workspace needs which, as far as the manifests show it,
//! and the order of publishing that follows.
//!
//! A unit needs another when one of the dependency tables of its manifest
//! has a line keyed by the other's name. The reading is textual: a renamed
//! dependency is taken by the name it is given in the table, and a
//! dependency declared as a table of its own is not seen.

use vstd::prelude::*;
use vstd::string::*;
use vstd::seq_lib::{
    to_multiset_build, to_multiset_contains, to_multiset_insert, to_multiset_len,
};
use crate::graph::{
    depends, has_cycle, is_cycle, is_publish_order, publish_order, rows, taken, well_formed,
    DependencyCycle,
};
use crate::package::{
    distinct_names, lemma_sort_ignores_order, name_sorted, sort_by_name, views, Package,
    PackageView,
};
use crate::sections::{line_at, sections, HeaderSyntax};
use crate::text::{
    ends_with, find, has_suffix, lemma_line_bounds, line_next, range_eq, scan, to_chars, trim,
    trim_range, CharClass,
};
use crate::toml::Toml;

verus! {

/// The name that a line of a dependency table is keyed by: what stands
/// before the first `=`, cut at its first `.`, and trimmed. A line without
/// `=` has none.
pub open spec fn dependency_key(line: Seq<char>) -> Option<Seq<char>> {
    let eq = scan(line, 0, CharClass::Is('='), true);
    if eq < line.len() {
        let dot = scan(line.take(eq), 0, CharClass::Is('.'), true);
        Some(trim(line.take(dot)))
    } else {
        None
    }
}

/// A line of `text` starts at `p`.
pub open spec fn is_line_start(text: Seq<char>, p: int) -> bool {
    0 <= p < text.len() && (p == 0 || text[p - 1] == '\n')
}

/// Some line of `body` that starts before `end` is keyed by `name`.
pub open spec fn keyed_before(body: Seq<char>, name: Seq<char>, end: int) -> bool {
    exists|p: int|
        p < end && is_line_start(body, p) && #[trigger] dependency_key(line_at(body, p)) == Some(
            name,
        )
}

/// The `k`-th table of `tables` is a dependency table with a line keyed by
/// `name`. Every table whose name ends in `dependencies` is one.
pub open spec fn table_names(tables: Seq<(Seq<char>, Seq<char>)>, k: int, name: Seq<char>) -> bool {
    &&& 0 <= k < tables.len()
    &&& has_suffix(tables[k].0, "dependencies"@)
    &&& keyed_before(tables[k].1, name, tables[k].1.len() as int)
}

/// Some dependency table of `manifest` has a line keyed by `name`.
pub open spec fn names_dependency(manifest: Seq<char>, name: Seq<char>) -> bool {
    exists|k: int| #[trigger] table_names(sections(manifest, HeaderSyntax::Table), k, name)
}

/// Unit `a` needs unit `b`: its manifest names `b` as a dependency. A unit
/// does not need itself, whatever its manifest says.
pub open spec fn needs(a: PackageView, b: PackageView) -> bool {
    a.name != b.name && names_dependency(a.manifest, b.name)
}

/// `path` leads from a unit back to itself, each unit on it needing the next.
pub open spec fn is_dependency_cycle(units: Seq<PackageView>, path: Seq<PackageView>) -> bool {
    &&& path.len() >= 2
    &&& path.first() == path.last()
    &&& forall|t: int| 0 <= t < path.len() ==> units.contains(#[trigger] path[t])
    &&& forall|t: int| 0 <= t < path.len() - 1 ==> needs(#[trigger] path[t], path[t + 1])
}

/// Some unit needs itself through others.
pub open spec fn has_dependency_cycle(units: Seq<PackageView>) -> bool {
    exists|path: Seq<PackageView>| is_dependency_cycle(units, path)
}

/// Where in the line `v[lo..hi]` its key stands.
fn key_range(v: &Vec<char>, lo: usize, hi: usize) -> (r: Option<(usize, usize)>)
    requires
        lo <= hi <= v.len(),
    ensures
        match r {
            Some((a, b)) => lo <= a <= b <= hi && dependency_key(
                v@.subrange(lo as int, hi as int),
            ) == Some(v@.subrange(a as int, b as int)),
            None => dependency_key(v@.subrange(lo as int, hi as int)) is None,
        },
{
    let ghost line = v@.subrange(lo as int, hi as int);
    let eq = find(v, lo, hi, CharClass::Is('='), true);
    if eq == hi {
        return None;
    }
    assert(line.take(eq - lo) =~= v@.subrange(lo as int, eq as int));
    let dot = find(v, lo, eq, CharClass::Is('.'), true);
    assert(line.take(dot - lo) =~= v@.subrange(lo as int, dot as int));
    Some(trim_range(v, lo, dot))
}

/// The names as the specifications see them.
pub open spec fn texts(names: Seq<Vec<char>>) -> Seq<Seq<char>> {
    Seq::new(names.len(), |i: int| names[i]@)
}

/// The names of `units`.
pub open spec fn names_of(units: Seq<PackageView>) -> Seq<Seq<char>> {
    Seq::new(units.len(), |i: int| units[i].name)
}

/// `row`, and behind it the units from the `j`-th on that are called `key`
/// and are not in it yet. A key that is the name of unit `i` itself adds
/// nothing.
pub open spec fn with_named(
    names: Seq<Seq<char>>,
    i: int,
    key: Seq<char>,
    row: Seq<usize>,
    j: int,
) -> Seq<usize>
    decreases names.len() - j,
{
    if j < 0 || j >= names.len() {
        row
    } else {
        with_named(
            names,
            i,
            key,
            if names[j] == key && key != names[i] && !row.contains(j as usize) {
                row.push(j as usize)
            } else {
                row
            },
            j + 1,
        )
    }
}

/// `row`, and behind it the units that the lines of `body` are keyed by,
/// from the line that starts at `pos` on, in the order of the lines.
pub open spec fn with_lines(
    names: Seq<Seq<char>>,
    i: int,
    body: Seq<char>,
    row: Seq<usize>,
    pos: int,
) -> Seq<usize>
    decreases body.len() - pos,
{
    if pos < 0 || pos >= body.len() {
        row
    } else {
        proof {
            lemma_line_bounds(body, pos);
        }
        with_lines(
            names,
            i,
            body,
            match dependency_key(line_at(body, pos)) {
                Some(key) => with_named(names, i, key, row, 0),
                None => row,
            },
            line_next(body, pos),
        )
    }
}

/// `row`, and behind it the units that the dependency tables among
/// `tables` name, from the `k`-th table on, in the order of the tables.
pub open spec fn with_tables(
    names: Seq<Seq<char>>,
    i: int,
    tables: Seq<(Seq<char>, Seq<char>)>,
    row: Seq<usize>,
    k: int,
) -> Seq<usize>
    decreases tables.len() - k,
{
    if k < 0 || k >= tables.len() {
        row
    } else {
        with_tables(
            names,
            i,
            tables,
            if has_suffix(tables[k].0, "dependencies"@) {
                with_lines(names, i, tables[k].1, row, 0)
            } else {
                row
            },
            k + 1,
        )
    }
}

/// The units that unit `i` needs, in the order in which its manifest
/// first names them.
pub open spec fn dependency_row(units: Seq<PackageView>, i: int) -> Seq<usize> {
    with_tables(
        names_of(units),
        i,
        sections(units[i].manifest, HeaderSyntax::Table),
        Seq::empty(),
        0,
    )
}

/// The graph of `units`.
pub open spec fn dependency_rows(units: Seq<PackageView>) -> Seq<Seq<usize>> {
    Seq::new(units.len(), |i: int| dependency_row(units, i))
}

/// A key that is the name of the unit itself adds nothing to its row.
proof fn lemma_own_name_adds_nothing(names: Seq<Seq<char>>, i: int, row: Seq<usize>, j: int)
    requires
        0 <= i < names.len(),
    ensures
        with_named(names, i, names[i], row, j) == row,
    decreases names.len() - j,
{
    if 0 <= j < names.len() {
        lemma_own_name_adds_nothing(names, i, row, j + 1);
    }
}

/// What holds of a row of the graph while it is filled: it names units,
/// and none twice.
spec fn row_ok(row: Seq<usize>, n: nat) -> bool {
    &&& row.no_duplicates()
    &&& forall|k: int| 0 <= k < row.len() ==> #[trigger] row[k] < n
}

/// Puts into `row` every unit but `i` that is called by the key `v[a..b]`.
fn add_named(
    names: &Vec<Vec<char>>,
    i: usize,
    v: &Vec<char>,
    a: usize,
    b: usize,
    row: &mut Vec<usize>,
)
    requires
        i < names.len(),
        a <= b <= v.len(),
        row_ok(old(row)@, names@.len()),
    ensures
        final(row)@ == with_named(
            texts(names@),
            i as int,
            v@.subrange(a as int, b as int),
            old(row)@,
            0,
        ),
        row_ok(final(row)@, names@.len()),
        forall|x: usize| #[trigger] old(row)@.contains(x) ==> final(row)@.contains(x),
        forall|x: usize|
            #[trigger] final(row)@.contains(x) ==> old(row)@.contains(x) || (x < names@.len()
                && names@[x as int]@ == v@.subrange(a as int, b as int) && names@[x as int]@
                != names@[i as int]@),
        forall|x: usize|
            x < names@.len() && (#[trigger] names@[x as int])@ == v@.subrange(a as int, b as int)
                && names@[x as int]@ != names@[i as int]@ ==> final(row)@.contains(x),
{
    let n = names.len();
    let ghost key = v@.subrange(a as int, b as int);
    if range_eq(v, a, b, &names[i]) {
        proof {
            lemma_own_name_adds_nothing(texts(names@), i as int, row@, 0);
        }
        return ;
    }
    let mut j: usize = 0;
    while j < n
        invariant
            n == names@.len(),
            i < n,
            a <= b <= v.len(),
            key == v@.subrange(a as int, b as int),
            key != names@[i as int]@,
            0 <= j <= n,
            with_named(texts(names@), i as int, key, row@, j as int) == with_named(
                texts(names@),
                i as int,
                key,
                old(row)@,
                0,
            ),
            row_ok(row@, n as nat),
            forall|x: usize| #[trigger] old(row)@.contains(x) ==> row@.contains(x),
            forall|x: usize|
                #[trigger] row@.contains(x) ==> old(row)@.contains(x) || (x < n
                    && names@[x as int]@ == key),
            forall|x: usize| x < j && (#[trigger] names@[x as int])@ == key ==> row@.contains(x),
        decreases n - j,
    {
        if range_eq(v, a, b, &names[j]) {
            let mut seen = false;
            let mut k: usize = 0;
            while k < row.len()
                invariant
                    0 <= k <= row.len(),
                    seen <==> exists|m: int| 0 <= m < k && row@[m] == j,
                decreases row.len() - k,
            {
                if row[k] == j {
                    seen = true;
                }
                k += 1;
            }
            if !seen {
                let ghost before = row@;
                row.push(j);
                proof {
                    assert forall|x: usize| #[trigger] before.contains(x) implies row@.contains(
                        x,
                    ) by {
                        let m = choose|m: int| 0 <= m < before.len() && before[m] == x;
                        assert(row@[m] == x);
                    }
                    assert(row@[before.len() as int] == j);
                    assert forall|x: usize| #[trigger] row@.contains(x) implies before.contains(x)
                        || x == j by {
                        let m = choose|m: int| 0 <= m < row@.len() && row@[m] == x;
                        if m < before.len() {
                            assert(before[m] == x);
                        }
                    }
                }
            } else {
                proof {
                    let m = choose|m: int| 0 <= m < row@.len() && row@[m] == j;
                    assert(row@[m] == j);
                }
            }
            assert(row@.contains(j));
        }
        j += 1;
    }
}

/// Puts into `row` every unit but `i` that a line of the table `body` is
/// keyed by.
fn add_table(names: &Vec<Vec<char>>, i: usize, body: &Vec<char>, row: &mut Vec<usize>)
    requires
        i < names.len(),
        row_ok(old(row)@, names@.len()),
    ensures
        final(row)@ == with_lines(texts(names@), i as int, body@, old(row)@, 0),
        row_ok(final(row)@, names@.len()),
        forall|x: usize| #[trigger] old(row)@.contains(x) ==> final(row)@.contains(x),
        forall|x: usize|
            #[trigger] final(row)@.contains(x) ==> old(row)@.contains(x) || (x < names@.len()
                && names@[x as int]@ != names@[i as int]@ && keyed_before(
                body@,
                names@[x as int]@,
                body@.len() as int,
            )),
        forall|x: usize|
            x < names@.len() && (#[trigger] names@[x as int])@ != names@[i as int]@ && keyed_before(
                body@,
                names@[x as int]@,
                body@.len() as int,
            ) ==> final(row)@.contains(x),
{
    let n = body.len();
    let mut pos: usize = 0;
    while pos < n
        invariant
            n == body@.len(),
            i < names.len(),
            0 <= pos <= n,
            pos < n ==> is_line_start(body@, pos as int),
            with_lines(texts(names@), i as int, body@, row@, pos as int) == with_lines(
                texts(names@),
                i as int,
                body@,
                old(row)@,
                0,
            ),
            row_ok(row@, names@.len()),
            forall|x: usize| #[trigger] old(row)@.contains(x) ==> row@.contains(x),
            forall|x: usize|
                #[trigger] row@.contains(x) ==> old(row)@.contains(x) || (x < names@.len()
                    && names@[x as int]@ != names@[i as int]@ && keyed_before(
                    body@,
                    names@[x as int]@,
                    pos as int,
                )),
            forall|x: usize|
                x < names@.len() && (#[trigger] names@[x as int])@ != names@[i as int]@
                    && keyed_before(body@, names@[x as int]@, pos as int) ==> row@.contains(x),
        decreases n - pos,
    {
        let end = find(body, pos, n, CharClass::Is('\n'), true);
        proof {
            assert(body@.subrange(0, n as int) =~= body@);
            lemma_line_bounds(body@, pos as int);
        }
        let next = if end < n {
            end + 1
        } else {
            n
        };
        let ghost before = row@;
        let ghost line = line_at(body@, pos as int);
        match key_range(body, pos, end) {
            Some((a, b)) => {
                add_named(names, i, body, a, b, row);
            },
            None => {},
        }
        proof {
            // The lines that start before `next` are those that start
            // before `pos`, and the one at `pos`.
            assert forall|name: Seq<char>| keyed_before(body@, name, next as int) implies keyed_before(
                body@,
                name,
                pos as int,
            ) || dependency_key(line) == Some(name) by {
                let p = choose|p: int|
                    p < next && is_line_start(body@, p) && #[trigger] dependency_key(
                        line_at(body@, p),
                    ) == Some(name);
                if p > pos {
                    assert(body@[p - 1] != '\n');
                }
            }
            assert forall|name: Seq<char>| keyed_before(body@, name, pos as int) implies keyed_before(
                body@,
                name,
                next as int,
            ) by {
                let p = choose|p: int|
                    p < pos && is_line_start(body@, p) && #[trigger] dependency_key(
                        line_at(body@, p),
                    ) == Some(name);
                assert(p < next && is_line_start(body@, p) && dependency_key(line_at(body@, p))
                    == Some(name));
            }
            assert forall|name: Seq<char>| dependency_key(line) == Some(name) implies keyed_before(
                body@,
                name,
                next as int,
            ) by {
                assert(pos < next && is_line_start(body@, pos as int) && dependency_key(
                    line_at(body@, pos as int),
                ) == Some(name));
            }
            assert forall|x: usize| #[trigger]
                row@.contains(x) implies old(row)@.contains(x) || (x < names@.len()
                && names@[x as int]@ != names@[i as int]@ && keyed_before(
                body@,
                names@[x as int]@,
                next as int,
            )) by {
                if !before.contains(x) {
                    assert(dependency_key(line) == Some(names@[x as int]@));
                } else if !old(row)@.contains(x) {
                    assert(keyed_before(body@, names@[x as int]@, pos as int));
                }
            }
            assert forall|x: usize|
                x < names@.len() && (#[trigger] names@[x as int])@ != names@[i as int]@
                    && keyed_before(body@, names@[x as int]@, next as int) implies row@.contains(
                x,
            ) by {
                if keyed_before(body@, names@[x as int]@, pos as int) {
                    assert(before.contains(x));
                }
            }
        }
        pos = next;
    }
}


/// One of the first `k` tables is a dependency table with a line keyed by
/// `name`.
spec fn named_before(tables: Seq<(Seq<char>, Seq<char>)>, name: Seq<char>, k: int) -> bool {
    exists|t: int| t < k && #[trigger] table_names(tables, t, name)
}

/// The units that unit `i` needs, by the manifest `manifest` of unit `i`
/// and the names `names` of all units.
fn dependencies_of(names: &Vec<Vec<char>>, i: usize, manifest: &str) -> (row: Vec<usize>)
    requires
        i < names.len(),
    ensures
        row@ == with_tables(
            texts(names@),
            i as int,
            sections(manifest@, HeaderSyntax::Table),
            Seq::empty(),
            0,
        ),
        row_ok(row@, names@.len()),
        forall|x: usize|
            #[trigger] row@.contains(x) ==> x < names@.len() && names@[x as int]@
                != names@[i as int]@ && names_dependency(manifest@, names@[x as int]@),
        forall|x: usize|
            x < names@.len() && (#[trigger] names@[x as int])@ != names@[i as int]@
                && names_dependency(manifest@, names@[x as int]@) ==> row@.contains(x),
{
    let tables = Toml(manifest).sections();
    let suffix = to_chars("dependencies");
    let ghost secs = sections(manifest@, HeaderSyntax::Table);
    let mut row: Vec<usize> = Vec::new();
    let mut k: usize = 0;
    while k < tables.len()
        invariant
            i < names.len(),
            suffix@ == "dependencies"@,
            secs == sections(manifest@, HeaderSyntax::Table),
            tables@.len() == secs.len(),
            forall|t: int|
                0 <= t < tables@.len() ==> ((#[trigger] tables@[t]).0@, tables@[t].1.0@) == secs[t],
            0 <= k <= tables.len(),
            with_tables(texts(names@), i as int, secs, row@, k as int) == with_tables(
                texts(names@),
                i as int,
                secs,
                Seq::empty(),
                0,
            ),
            row_ok(row@, names@.len()),
            forall|x: usize|
                #[trigger] row@.contains(x) ==> x < names@.len() && names@[x as int]@
                    != names@[i as int]@ && named_before(secs, names@[x as int]@, k as int),
            forall|x: usize|
                x < names@.len() && (#[trigger] names@[x as int])@ != names@[i as int]@
                    && named_before(secs, names@[x as int]@, k as int) ==> row@.contains(x),
        decreases tables.len() - k,
    {
        let ghost before = row@;
        let title = to_chars(tables[k].0);
        assert(title@.subrange(0, title@.len() as int) =~= title@);
        let is_dependency_table = ends_with(&title, 0, title.len(), &suffix);
        if is_dependency_table {
            let body = to_chars(tables[k].1.0);
            add_table(names, i, &body, &mut row);
        }
        proof {
            assert(tables@[k as int].0@ == secs[k as int].0);
            assert(tables@[k as int].1.0@ == secs[k as int].1);
            assert forall|name: Seq<char>| named_before(secs, name, k + 1) implies named_before(
                secs,
                name,
                k as int,
            ) || table_names(secs, k as int, name) by {
                let t = choose|t: int| t < k + 1 && #[trigger] table_names(secs, t, name);
                if t < k {
                    assert(named_before(secs, name, k as int));
                }
            }
            assert forall|name: Seq<char>|
                named_before(secs, name, k as int) || table_names(
                    secs,
                    k as int,
                    name,
                ) implies named_before(secs, name, k + 1) by {
                if named_before(secs, name, k as int) {
                    let t = choose|t: int| t < k && #[trigger] table_names(secs, t, name);
                    assert(t < k + 1 && table_names(secs, t, name));
                } else {
                    assert(k < k + 1 && table_names(secs, k as int, name));
                }
            }
            assert forall|x: usize| #[trigger]
                row@.contains(x) implies x < names@.len() && names@[x as int]@
                != names@[i as int]@ && named_before(secs, names@[x as int]@, k + 1) by {
                if before.contains(x) {
                    assert(named_before(secs, names@[x as int]@, k as int));
                } else {
                    assert(table_names(secs, k as int, names@[x as int]@));
                }
            }
            assert forall|x: usize|
                x < names@.len() && (#[trigger] names@[x as int])@ != names@[i as int]@
                    && named_before(secs, names@[x as int]@, k + 1) implies row@.contains(x) by {
                if named_before(secs, names@[x as int]@, k as int) {
                    assert(before.contains(x));
                }
            }
        }
        k += 1;
    }
    proof {
        assert forall|name: Seq<char>| names_dependency(manifest@, name) implies named_before(
            secs,
            name,
            tables@.len() as int,
        ) by {
            let t = choose|t: int| #[trigger] table_names(secs, t, name);
            assert(t < tables@.len() && table_names(secs, t, name));
        }
        assert forall|name: Seq<char>|
            named_before(secs, name, tables@.len() as int) implies names_dependency(
            manifest@,
            name,
        ) by {
            let t = choose|t: int| t < tables@.len() && #[trigger] table_names(secs, t, name);
            assert(table_names(secs, t, name));
        }
    }
    row
}

/// The graph of the units: row `i` lists the units that unit `i` needs.
pub fn dependency_graph(pkgs: &Vec<Package>) -> (g: Vec<Vec<usize>>)
    ensures
        rows(&g) == dependency_rows(views(pkgs@)),
        g@.len() == pkgs@.len(),
        well_formed(rows(&g)),
        forall|i: int, j: int|
            0 <= i < pkgs@.len() && 0 <= j < pkgs@.len() ==> (#[trigger] depends(rows(&g), i, j)
                <==> needs(pkgs@[i]@, pkgs@[j]@)),
{
    let n = pkgs.len();
    let mut names: Vec<Vec<char>> = Vec::new();
    let mut i: usize = 0;
    while i < n
        invariant
            n == pkgs@.len(),
            0 <= i <= n,
            names@.len() == i,
            forall|k: int| 0 <= k < i ==> (#[trigger] names@[k])@ == pkgs@[k].name@,
        decreases n - i,
    {
        names.push(to_chars(pkgs[i].name.as_str()));
        i += 1;
    }
    let mut g: Vec<Vec<usize>> = Vec::new();
    let mut i: usize = 0;
    assert(texts(names@) =~= names_of(views(pkgs@)));
    while i < n
        invariant
            n == pkgs@.len(),
            names@.len() == n,
            forall|k: int| 0 <= k < n ==> (#[trigger] names@[k])@ == pkgs@[k].name@,
            0 <= i <= n,
            g@.len() == i,
            texts(names@) == names_of(views(pkgs@)),
            forall|k: int| 0 <= k < i ==> (#[trigger] g@[k])@ == dependency_row(views(pkgs@), k),
            forall|k: int| 0 <= k < i ==> row_ok(#[trigger] g@[k]@, n as nat),
            forall|k: int, x: usize|
                0 <= k < i && #[trigger] g@[k]@.contains(x) ==> x < n && needs(
                    pkgs@[k]@,
                    pkgs@[x as int]@,
                ),
            forall|k: int, x: usize|
                0 <= k < i && x < n && #[trigger] needs(pkgs@[k]@, pkgs@[x as int]@)
                    ==> g@[k]@.contains(x),
        decreases n - i,
    {
        let row = dependencies_of(&names, i, pkgs[i].manifest.as_str());
        proof {
            assert forall|x: usize| x < n && #[trigger] needs(
                pkgs@[i as int]@,
                pkgs@[x as int]@,
            ) implies row@.contains(x) by {
                assert(names@[x as int]@ == pkgs@[x as int].name@);
            }
        }
        g.push(row);
        i += 1;
    }
    proof {
        let gs = rows(&g);
        assert(gs =~= dependency_rows(views(pkgs@)));
        assert forall|i: int, k: int| 0 <= i < gs.len() && 0 <= k < gs[i].len() implies (
        #[trigger] gs[i][k]) < gs.len() by {
            assert(row_ok(g@[i]@, n as nat));
        }
        assert forall|i: int| 0 <= i < gs.len() implies (#[trigger] gs[i]).no_duplicates() by {
            assert(row_ok(g@[i]@, n as nat));
        }
        assert forall|i: int, j: int| 0 <= i < n && 0 <= j < n implies (#[trigger] depends(
            gs,
            i,
            j,
        ) <==> needs(pkgs@[i]@, pkgs@[j]@)) by {
            if needs(pkgs@[i]@, pkgs@[j]@) {
                assert(needs(pkgs@[i]@, pkgs@[j as usize as int]@));
                assert(g@[i]@.contains(j as usize));
            }
            if depends(gs, i, j) {
                assert(g@[i]@.contains(j as usize));
            }
        }
    }
    g
}


/// `s` with its items taken in the order that `order` gives.
pub open spec fn reordered<A>(s: Seq<A>, order: Seq<int>) -> Seq<A> {
    Seq::new(order.len(), |k: int| s[order[k]])
}

/// Taking every item once, in whatever order, keeps what a sequence holds.
pub proof fn lemma_reordered_holds_the_same<A>(s: Seq<A>, order: Seq<int>)
    requires
        order.len() == s.len(),
        order.no_duplicates(),
        forall|k: int| 0 <= k < order.len() ==> 0 <= #[trigger] order[k] < s.len(),
    ensures
        reordered(s, order).to_multiset() == s.to_multiset(),
    decreases s.len(),
{
    let t = reordered(s, order);
    if s.len() == 0 {
        assert(t =~= s);
    } else {
        let n = s.len() as int;
        let last = order[n - 1];
        let rest = s.remove(last);
        let shifted = Seq::new(
            (n - 1) as nat,
            |k: int|
                if order[k] > last {
                    order[k] - 1
                } else {
                    order[k]
                },
        );
        assert forall|a: int, b: int|
            0 <= a < shifted.len() && 0 <= b < shifted.len() && a != b implies shifted[a]
            != shifted[b] by {
            assert(order[a] != order[b]);
            assert(order[a] != last);
            assert(order[b] != last);
        }
        assert forall|k: int| 0 <= k < shifted.len() implies 0 <= #[trigger] shifted[k]
            < rest.len() by {
            assert(order[k] != last);
        }
        lemma_reordered_holds_the_same(rest, shifted);
        assert(reordered(rest, shifted) =~= t.drop_last()) by {
            assert forall|k: int| 0 <= k < n - 1 implies reordered(rest, shifted)[k]
                == t.drop_last()[k] by {
                assert(order[k] != last);
            }
        }
        assert(t =~= t.drop_last().push(s[last]));
        to_multiset_build(t.drop_last(), s[last]);
        assert(rest.insert(last, s[last]) =~= s);
        to_multiset_insert(rest, last, s[last]);
    }
}

/// The place of `unit` in `units`.
spec fn index_of(units: Seq<PackageView>, unit: PackageView) -> int {
    choose|k: int| 0 <= k < units.len() && units[k] == unit
}

/// A cycle among the nodes of the graph of `units` is a cycle among the
/// units, and the other way round.
proof fn lemma_cycles_agree(units: Seq<PackageView>, g: Seq<Seq<usize>>)
    requires
        g.len() == units.len(),
        forall|i: int, j: int|
            0 <= i < units.len() && 0 <= j < units.len() ==> (#[trigger] depends(g, i, j) <==> needs(
                units[i],
                units[j],
            )),
    ensures
        has_cycle(g) <==> has_dependency_cycle(units),
{
    if has_cycle(g) {
        let path = choose|path: Seq<int>| is_cycle(g, path);
        let walk = Seq::new(path.len(), |t: int| units[path[t]]);
        assert forall|t: int| 0 <= t < path.len() implies 0 <= #[trigger] path[t]
            < units.len() by {
            if t < path.len() - 1 {
                assert(depends(g, path[t], path[t + 1]));
            } else {
                assert(depends(g, path[t - 1], path[t]));
            }
        }
        assert forall|t: int| 0 <= t < walk.len() implies units.contains(#[trigger] walk[t]) by {
            assert(units[path[t]] == walk[t]);
        }
        assert forall|t: int| 0 <= t < walk.len() - 1 implies needs(
            #[trigger] walk[t],
            walk[t + 1],
        ) by {
            assert(depends(g, path[t], path[t + 1]));
        }
        assert(is_dependency_cycle(units, walk));
    }
    if has_dependency_cycle(units) {
        let walk = choose|walk: Seq<PackageView>| is_dependency_cycle(units, walk);
        let path = Seq::new(walk.len(), |t: int| index_of(units, walk[t]));
        assert forall|t: int| 0 <= t < walk.len() implies 0 <= #[trigger] path[t] < units.len()
            && units[path[t]] == walk[t] by {
            assert(units.contains(walk[t]));
        }
        assert forall|t: int| 0 <= t < path.len() - 1 implies depends(
            g,
            #[trigger] path[t],
            path[t + 1],
        ) by {
            assert(needs(walk[t], walk[t + 1]));
            assert(units[path[t]] == walk[t]);
            assert(units[path[t + 1]] == walk[t + 1]);
        }
        assert(is_cycle(g, path));
    }
}

/// Whether a sequence of units holds a cycle does not depend on the order
/// of the units.
proof fn lemma_cycle_of_the_same(a: Seq<PackageView>, b: Seq<PackageView>)
    requires
        a.to_multiset() == b.to_multiset(),
    ensures
        has_dependency_cycle(a) ==> has_dependency_cycle(b),
{
    if has_dependency_cycle(a) {
        let walk = choose|walk: Seq<PackageView>| is_dependency_cycle(a, walk);
        assert forall|t: int| 0 <= t < walk.len() implies b.contains(#[trigger] walk[t]) by {
            assert(a.contains(walk[t]));
            to_multiset_contains(a, walk[t]);
            to_multiset_contains(b, walk[t]);
        }
        assert(is_dependency_cycle(b, walk));
    }
}

/// The order in which `units` are published: they are sorted by name,
/// taken off their graph one after the other, and put in the reverse of the
/// order in which they were taken.
pub open spec fn publish_sequence(units: Seq<PackageView>) -> Seq<PackageView> {
    let sorted = name_sorted(units, units.len() as int);
    let order = taken(dependency_rows(sorted)).reverse();
    Seq::new(order.len(), |k: int| sorted[order[k] as int])
}

/// The order of publishing does not depend on the order in which the
/// units were found: the same units of distinct names, in whatever order,
/// are published in one order.
pub proof fn lemma_publish_ignores_order(a: Seq<PackageView>, b: Seq<PackageView>)
    requires
        a.to_multiset() == b.to_multiset(),
        distinct_names(a),
    ensures
        publish_sequence(a) == publish_sequence(b),
{
    to_multiset_len(a);
    to_multiset_len(b);
    lemma_sort_ignores_order(a, b);
}

/// Puts the units in an order in which they can be published: each unit
/// after all the units that it needs.
///
/// There is such an order unless some unit needs itself through others,
/// and then there is none. Units that do not need one another come in the
/// order that their names and the graph's traversal give.
pub fn sort_packages(pkgs: Vec<Package>) -> (r: Result<Vec<Package>, DependencyCycle>)
    ensures
        r is Err <==> has_dependency_cycle(views(pkgs@)),
        match r {
            Ok(out) => {
                &&& views(out@) == publish_sequence(views(pkgs@))
                &&& views(out@).to_multiset() == views(pkgs@).to_multiset()
                &&& forall|a: int, b: int|
                    0 <= a < out@.len() && 0 <= b < out@.len() && needs(
                        #[trigger] out@[a]@,
                        #[trigger] out@[b]@,
                    ) ==> b < a
            },
            Err(_) => true,
        },
{
    let mut sorted = pkgs;
    sort_by_name(&mut sorted);
    let g = dependency_graph(&sorted);
    let ghost units = views(sorted@);
    proof {
        assert forall|i: int, j: int|
            0 <= i < units.len() && 0 <= j < units.len() implies (#[trigger] depends(
            rows(&g),
            i,
            j,
        ) <==> needs(units[i], units[j])) by {}
        lemma_cycles_agree(units, rows(&g));
        lemma_cycle_of_the_same(units, views(pkgs@));
        lemma_cycle_of_the_same(views(pkgs@), units);
    }
    match publish_order(&g) {
        Err(e) => Err(e),
        Ok(order) => {
            let n = order.len();
            let mut out: Vec<Package> = Vec::new();
            let mut k: usize = 0;
            while k < n
                invariant
                    n == order@.len(),
                    n == sorted@.len(),
                    is_publish_order(rows(&g), order@),
                    rows(&g).len() == n,
                    0 <= k <= n,
                    out@.len() == k,
                    forall|t: int| 0 <= t < k ==> (#[trigger] out@[t])@ == sorted@[order@[t] as int]@,
                decreases n - k,
            {
                out.push(sorted[order[k]].clone());
                k += 1;
            }
            proof {
                let picks = Seq::new(n as nat, |t: int| order@[t] as int);
                assert forall|t: int| 0 <= t < n implies 0 <= #[trigger] picks[t] < n by {
                    assert(order@[t] < n);
                }
                assert(picks.no_duplicates()) by {
                    assert forall|a: int, b: int|
                        0 <= a < picks.len() && 0 <= b < picks.len() && a != b implies picks[a]
                        != picks[b] by {
                        assert(order@[a] != order@[b]);
                    }
                }
                lemma_reordered_holds_the_same(units, picks);
                assert(views(out@) =~= reordered(units, picks));
                assert(views(out@) =~= publish_sequence(views(pkgs@)));
                assert forall|a: int, b: int|
                    0 <= a < out@.len() && 0 <= b < out@.len() && needs(
                        #[trigger] out@[a]@,
                        #[trigger] out@[b]@,
                    ) implies b < a by {
                    assert(depends(rows(&g), picks[a], picks[b]));
                    assert(depends(rows(&g), order@[a] as int, order@[b] as int));
                }
            }
            Ok(out)
        },
    }
}

} // verus!
