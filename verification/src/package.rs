//! The units of a workspace, and the order in which they are published.

use vstd::prelude::*;
use vstd::string::*;
use vstd::seq_lib::{
    to_multiset_build, to_multiset_contains, to_multiset_insert, to_multiset_len,
    to_multiset_remove,
};
use crate::text::{chars_lt, lex_le, lex_lt, lex_lt_from, to_chars};

verus! {

/// A unit of the workspace that can be published.
#[derive(Debug)]
pub struct Package {
    pub name: String,
    pub version: String,
    /// The change document of the unit itself, where it has one beside the
    /// one of the workspace.
    pub changelog_path: Option<String>,
    /// The entry of the change document for `version`, once it was looked up.
    pub release_notes: Option<String>,
    /// The text of the unit's manifest.
    pub manifest: String,
}

/// A unit as the specifications see it.
pub struct PackageView {
    pub name: Seq<char>,
    pub version: Seq<char>,
    pub changelog_path: Option<Seq<char>>,
    pub release_notes: Option<Seq<char>>,
    pub manifest: Seq<char>,
}

/// The text of an optional string.
pub open spec fn text_of(s: Option<String>) -> Option<Seq<char>> {
    match s {
        Some(s) => Some(s@),
        None => None,
    }
}

impl View for Package {
    type V = PackageView;

    open spec fn view(&self) -> PackageView {
        PackageView {
            name: self.name@,
            version: self.version@,
            changelog_path: text_of(self.changelog_path),
            release_notes: text_of(self.release_notes),
            manifest: self.manifest@,
        }
    }
}

/// The units of `pkgs` as the specifications see them.
pub open spec fn views(pkgs: Seq<Package>) -> Seq<PackageView> {
    Seq::new(pkgs.len(), |i: int| pkgs[i]@)
}

fn clone_text(s: &Option<String>) -> (r: Option<String>)
    ensures
        text_of(r) == text_of(*s),
{
    match s {
        Some(s) => Some(s.clone()),
        None => None,
    }
}

impl Clone for Package {
    fn clone(&self) -> (r: Self)
        ensures
            r@ == self@,
    {
        Package {
            name: self.name.clone(),
            version: self.version.clone(),
            changelog_path: clone_text(&self.changelog_path),
            release_notes: clone_text(&self.release_notes),
            manifest: self.manifest.clone(),
        }
    }
}

impl Package {
    /// The unit as it is shown to a reader: its name, `@`, its version.
    pub fn label(&self) -> (r: String)
        ensures
            r@ == self.name@ + seq!['@'] + self.version@,
    {
        let mut r = self.name.clone();
        r.append("@");
        proof {
            reveal_strlit("@");
            assert("@"@ =~= seq!['@']);
        }
        r.append(self.version.as_str());
        r
    }
}

/// The units stand in the order of their names.
pub open spec fn sorted_by_name(pkgs: Seq<PackageView>) -> bool {
    forall|a: int, b: int|
        0 <= a < b < pkgs.len() ==> lex_le(#[trigger] pkgs[a].name, #[trigger] pkgs[b].name)
}

/// If `a` comes before `b`, and `c` does not come before `b`, then `a` comes
/// before `c`.
pub proof fn lemma_lex_lt_le(a: Seq<char>, b: Seq<char>, c: Seq<char>, i: int)
    requires
        0 <= i,
        lex_lt_from(a, b, i),
        !lex_lt_from(c, b, i),
    ensures
        lex_lt_from(a, c, i),
    decreases a.len() - i,
{
    if i < a.len() && i < b.len() && i < c.len() && a[i] == b[i] && b[i] == c[i] {
        lemma_lex_lt_le(a, b, c, i + 1);
    }
}

/// Of two names, at most one comes before the other.
pub proof fn lemma_lex_lt_asymmetric(a: Seq<char>, b: Seq<char>, i: int)
    requires
        0 <= i,
        lex_lt_from(a, b, i),
    ensures
        !lex_lt_from(b, a, i),
    decreases a.len() - i,
{
    if i < a.len() && i < b.len() && a[i] == b[i] {
        lemma_lex_lt_asymmetric(a, b, i + 1);
    }
}

/// Where a unit called `name` goes into `sorted`, looking leftwards from
/// `p`: behind the last unit that does not come after it.
pub open spec fn place_of(sorted: Seq<PackageView>, name: Seq<char>, p: int) -> int
    decreases p,
{
    if 0 < p <= sorted.len() && lex_lt(name, sorted[p - 1].name) {
        place_of(sorted, name, p - 1)
    } else {
        p
    }
}

/// The first `upto` of `units` in the order of their names, units of one
/// name in the order in which they stand in `units`.
pub open spec fn name_sorted(units: Seq<PackageView>, upto: int) -> Seq<PackageView>
    decreases upto,
{
    if upto <= 0 {
        Seq::empty()
    } else {
        let before = name_sorted(units, upto - 1);
        let unit = units[upto - 1];
        before.insert(place_of(before, unit.name, before.len() as int), unit)
    }
}

/// No two of `units` have one name.
pub open spec fn distinct_names(units: Seq<PackageView>) -> bool {
    forall|i: int, j: int|
        0 <= i < j < units.len() ==> (#[trigger] units[i]).name != (#[trigger] units[j]).name
}

proof fn lemma_place_of(sorted: Seq<PackageView>, name: Seq<char>, p: int)
    requires
        0 <= p <= sorted.len(),
    ensures
        0 <= place_of(sorted, name, p) <= p,
        forall|k: int|
            place_of(sorted, name, p) <= k < p ==> lex_lt(name, (#[trigger] sorted[k]).name),
        place_of(sorted, name, p) > 0 ==> !lex_lt(
            name,
            sorted[place_of(sorted, name, p) - 1].name,
        ),
    decreases p,
{
    if 0 < p && lex_lt(name, sorted[p - 1].name) {
        lemma_place_of(sorted, name, p - 1);
    }
}

/// The first `upto` of `units`, sorted, stand in the order of their names
/// and are the same units.
pub proof fn lemma_name_sorted(units: Seq<PackageView>, upto: int)
    requires
        0 <= upto <= units.len(),
    ensures
        name_sorted(units, upto).len() == upto,
        sorted_by_name(name_sorted(units, upto)),
        name_sorted(units, upto).to_multiset() == units.take(upto).to_multiset(),
    decreases upto,
{
    if upto > 0 {
        lemma_name_sorted(units, upto - 1);
        let before = name_sorted(units, upto - 1);
        let unit = units[upto - 1];
        let p = place_of(before, unit.name, before.len() as int);
        lemma_place_of(before, unit.name, before.len() as int);
        let after = before.insert(p, unit);
        assert forall|a: int, b: int| 0 <= a < b < after.len() implies lex_le(
            #[trigger] after[a].name,
            #[trigger] after[b].name,
        ) by {
            let oa = if a < p { a } else { a - 1 };
            let ob = if b < p { b } else { b - 1 };
            if a == p {
                assert(lex_lt(unit.name, before[b - 1].name));
                lemma_lex_lt_asymmetric(unit.name, before[b - 1].name, 0);
            } else if b == p {
                if lex_lt(unit.name, before[oa].name) {
                    if oa < p - 1 {
                        assert(lex_le(before[oa].name, before[p - 1].name));
                    }
                    lemma_lex_lt_le(unit.name, before[oa].name, before[p - 1].name, 0);
                }
            } else {
                assert(lex_le(before[oa].name, before[ob].name));
            }
        }
        to_multiset_insert(before, p, unit);
        assert(units.take(upto) =~= units.take(upto - 1).push(unit));
        to_multiset_build(units.take(upto - 1), unit);
    } else {
        assert(units.take(0) =~= name_sorted(units, 0));
    }
}

/// Two names of which neither comes before the other are one name.
proof fn lemma_lex_same(a: Seq<char>, b: Seq<char>, i: int)
    requires
        0 <= i <= a.len(),
        i <= b.len(),
        forall|k: int| 0 <= k < i ==> a[k] == b[k],
        !lex_lt_from(a, b, i),
        !lex_lt_from(b, a, i),
    ensures
        a == b,
    decreases a.len() - i,
{
    if i < a.len() && i < b.len() {
        lemma_lex_same(a, b, i + 1);
    } else {
        assert(a =~= b);
    }
}

/// Units that are the same as units of distinct names have distinct names.
proof fn lemma_distinct_names_carry(a: Seq<PackageView>, x: Seq<PackageView>)
    requires
        a.to_multiset() == x.to_multiset(),
        distinct_names(a),
    ensures
        distinct_names(x),
        x.no_duplicates(),
{
    assert(a.no_duplicates()) by {
        assert forall|i: int, j: int| 0 <= i < a.len() && 0 <= j < a.len() && i != j implies a[i]
            != a[j] by {
            if i < j {
                assert(a[i].name != a[j].name);
            } else {
                assert(a[j].name != a[i].name);
            }
        }
    }
    a.lemma_multiset_has_no_duplicates();
    x.lemma_multiset_has_no_duplicates_conv();
    assert forall|i: int, j: int| 0 <= i < j < x.len() implies (#[trigger] x[i]).name != (
    #[trigger] x[j]).name by {
        assert(x[i] != x[j]);
        assert(x.contains(x[i]));
        assert(x.contains(x[j]));
        to_multiset_contains(x, x[i]);
        to_multiset_contains(x, x[j]);
        to_multiset_contains(a, x[i]);
        to_multiset_contains(a, x[j]);
        let ai = choose|k: int| 0 <= k < a.len() && a[k] == x[i];
        let aj = choose|k: int| 0 <= k < a.len() && a[k] == x[j];
        if ai < aj {
            assert(a[ai].name != a[aj].name);
        } else {
            assert(a[aj].name != a[ai].name);
        }
    }
}

/// The same units of distinct names, sorted by name, are one sequence.
proof fn lemma_sorted_is_unique(x: Seq<PackageView>, y: Seq<PackageView>)
    requires
        sorted_by_name(x),
        sorted_by_name(y),
        x.to_multiset() == y.to_multiset(),
        distinct_names(x),
    ensures
        x == y,
    decreases x.len(),
{
    to_multiset_len(x);
    to_multiset_len(y);
    if x.len() == 0 {
        assert(x =~= y);
    } else {
        let n = x.len() as int;
        lemma_distinct_names_carry(x, y);
        assert(x.contains(x[n - 1]));
        assert(y.contains(y[n - 1]));
        to_multiset_contains(x, x[n - 1]);
        to_multiset_contains(y, x[n - 1]);
        to_multiset_contains(x, y[n - 1]);
        to_multiset_contains(y, y[n - 1]);
        let i = choose|k: int| 0 <= k < x.len() && x[k] == y[n - 1];
        let j = choose|k: int| 0 <= k < y.len() && y[k] == x[n - 1];
        // The last of each stands in the other, and not behind its last.
        if i < n - 1 {
            assert(lex_le(x[i].name, x[n - 1].name));
        }
        if j < n - 1 {
            assert(lex_le(y[j].name, y[n - 1].name));
        }
        if x[n - 1].name != y[n - 1].name {
            assert(i < n - 1 && j < n - 1);
            lemma_lex_same(x[n - 1].name, y[n - 1].name, 0);
        }
        if i < n - 1 {
            assert(x[i].name != x[n - 1].name);
        }
        assert(x[n - 1] == y[n - 1]);
        assert(x.remove(n - 1) =~= x.drop_last());
        assert(y.remove(n - 1) =~= y.drop_last());
        to_multiset_remove(x, n - 1);
        to_multiset_remove(y, n - 1);
        assert forall|a: int, b: int| 0 <= a < b < n - 1 implies lex_le(
            #[trigger] x.drop_last()[a].name,
            #[trigger] x.drop_last()[b].name,
        ) by {
            assert(lex_le(x[a].name, x[b].name));
        }
        assert forall|a: int, b: int| 0 <= a < b < n - 1 implies lex_le(
            #[trigger] y.drop_last()[a].name,
            #[trigger] y.drop_last()[b].name,
        ) by {
            assert(lex_le(y[a].name, y[b].name));
        }
        assert forall|a: int, b: int| 0 <= a < b < n - 1 implies (
        #[trigger] x.drop_last()[a]).name != (#[trigger] x.drop_last()[b]).name by {
            assert(x[a].name != x[b].name);
        }
        lemma_sorted_is_unique(x.drop_last(), y.drop_last());
        assert(x =~= x.drop_last().push(x[n - 1]));
        assert(y =~= y.drop_last().push(y[n - 1]));
    }
}

/// Sorting by name does not depend on the order in which the units come:
/// the same units of distinct names, in whatever order, are sorted into one
/// sequence.
pub proof fn lemma_sort_ignores_order(a: Seq<PackageView>, b: Seq<PackageView>)
    requires
        a.to_multiset() == b.to_multiset(),
        distinct_names(a),
    ensures
        name_sorted(a, a.len() as int) == name_sorted(b, b.len() as int),
{
    lemma_name_sorted(a, a.len() as int);
    lemma_name_sorted(b, b.len() as int);
    assert(a.take(a.len() as int) =~= a);
    assert(b.take(b.len() as int) =~= b);
    lemma_distinct_names_carry(a, name_sorted(a, a.len() as int));
    lemma_sorted_is_unique(name_sorted(a, a.len() as int), name_sorted(b, b.len() as int));
}

/// Puts the units in the order of their names. Units of one name keep
/// their order.
pub fn sort_by_name(pkgs: &mut Vec<Package>)
    ensures
        views(final(pkgs)@) == name_sorted(views(old(pkgs)@), old(pkgs)@.len() as int),
        sorted_by_name(views(final(pkgs)@)),
        final(pkgs)@.to_multiset() == old(pkgs)@.to_multiset(),
        views(final(pkgs)@).to_multiset() == views(old(pkgs)@).to_multiset(),
{
    let n = pkgs.len();
    let mut i: usize = 1;
    proof {
        if n > 0 {
            assert(name_sorted(views(pkgs@), 0) =~= Seq::<PackageView>::empty());
            assert(views(pkgs@.take(1)) =~= name_sorted(views(pkgs@), 1));
        }
    }
    while i < n
        invariant
            pkgs@.len() == n,
            n == old(pkgs)@.len(),
            1 <= i,
            i <= n || n == 0,
            i <= n ==> views(pkgs@.take(i as int)) == name_sorted(views(old(pkgs)@), i as int),
            forall|k: int| i <= k < n ==> pkgs@[k] == old(pkgs)@[k],
            pkgs@.to_multiset() == old(pkgs)@.to_multiset(),
            views(pkgs@).to_multiset() == views(old(pkgs)@).to_multiset(),
            sorted_by_name(views(pkgs@.take(if i <= n { i as int } else { n as int }))),
        decreases n - i,
    {
        let ghost before = pkgs@;
        let x = pkgs.remove(i);
        let key = to_chars(x.name.as_str());
        // Everything at `p` and after, up to `i`, comes after `x`.
        let mut p: usize = i;
        while p > 0 && chars_lt(&key, &to_chars(pkgs[p - 1].name.as_str()))
            invariant
                0 <= p <= i < n,
                pkgs@ == before.remove(i as int),
                before.len() == n,
                key@ == x.name@,
                forall|k: int| p <= k < i ==> lex_lt(key@, #[trigger] pkgs@[k].name@),
                place_of(views(before.take(i as int)), key@, i as int) == place_of(
                    views(before.take(i as int)),
                    key@,
                    p as int,
                ),
            decreases p,
        {
            p -= 1;
        }
        let ghost removed = pkgs@;
        pkgs.insert(p, x);
        proof {
            assert(views(pkgs@.take(i + 1)) =~= views(before.take(i as int)).insert(p as int, x@));
            assert(x@ == views(old(pkgs)@)[i as int]);
            assert(removed.insert(i as int, x) =~= before);
            to_multiset_insert(removed, i as int, x);
            to_multiset_insert(removed, p as int, x);
            assert(views(removed).insert(i as int, x@) =~= views(before));
            assert(views(removed).insert(p as int, x@) =~= views(pkgs@));
            to_multiset_insert(views(removed), i as int, x@);
            to_multiset_insert(views(removed), p as int, x@);
            let prefix = views(pkgs@.take(i + 1));
            let old_prefix = views(before.take(i as int));
            assert forall|a: int, b: int| 0 <= a < b < prefix.len() implies lex_le(
                #[trigger] prefix[a].name,
                #[trigger] prefix[b].name,
            ) by {
                let oa = if a < p { a } else { a - 1 };
                let ob = if b < p { b } else { b - 1 };
                if a != p {
                    assert(prefix[a] == old_prefix[oa]);
                }
                if b != p {
                    assert(prefix[b] == old_prefix[ob]);
                }
                if a == p {
                    // `x` against something that it was found to precede.
                    assert(lex_lt(key@, removed[b - 1].name@));
                    lemma_lex_lt_asymmetric(key@, removed[b - 1].name@, 0);
                } else if b == p {
                    // Something of the sorted part before the place of `x`.
                    if p > 0 {
                        assert(!lex_lt(key@, removed[p - 1].name@));
                        if lex_lt(key@, old_prefix[oa].name) {
                            if oa < p - 1 {
                                assert(lex_le(old_prefix[oa].name, old_prefix[p - 1].name));
                            }
                            lemma_lex_lt_le(key@, old_prefix[oa].name, old_prefix[p - 1].name, 0);
                        }
                    }
                } else {
                    assert(lex_le(old_prefix[oa].name, old_prefix[ob].name));
                }
            }
        }
        i += 1;
    }
    proof {
        if n >= 1 {
            assert(pkgs@.take(n as int) =~= pkgs@);
        } else {
            assert(pkgs@.take(0) =~= pkgs@);
            assert(views(pkgs@) =~= name_sorted(views(old(pkgs)@), 0));
        }
    }
}

} // verus!
