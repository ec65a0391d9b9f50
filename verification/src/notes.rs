//! Finding the entry of a change document that belongs to a release.

use vstd::prelude::*;
use vstd::string::*;
use crate::markdown::Markdown;
use crate::package::{text_of, Package, PackageView};
use crate::sections::{sections, HeaderSyntax};
use crate::text::{contains, has_substring, lowercase, to_chars, to_lowercase};

verus! {

/// Why no entry of a change document could be taken for a release.
#[derive(Clone, Copy, Debug, PartialEq, Eq, Structural)]
pub enum NotesError {
    /// No heading of the first three levels holds the version.
    MissingEntry,
    /// Several headings hold the version, and none of them the unit's name.
    MissingNamedEntry,
    /// Several headings hold the version and the unit's name.
    AmbiguousEntry,
}

/// A section as the specifications see it: its title and its body.
pub type Entry = (Seq<char>, Seq<char>);

/// The sections whose title holds `needle`.
pub open spec fn titled(needle: Seq<char>) -> spec_fn(Entry) -> bool {
    |e: Entry| has_substring(e.0, needle)
}

/// The sections whose title holds `name`, whatever the case of the ASCII
/// letters on either side.
pub open spec fn titled_like(name: Seq<char>) -> spec_fn(Entry) -> bool {
    |e: Entry| has_substring(lowercase(e.0), lowercase(name))
}

/// The sections of `document` under headings of `level` marks whose title
/// holds `version`.
pub open spec fn entries_at(document: Seq<char>, level: u8, version: Seq<char>) -> Seq<Entry> {
    sections(document, HeaderSyntax::Heading(level)).filter(titled(version))
}

/// The entries for `version` at the first of the levels one to three that
/// has any.
pub open spec fn entries_for(document: Seq<char>, version: Seq<char>) -> Seq<Entry> {
    if entries_at(document, 1, version).len() > 0 {
        entries_at(document, 1, version)
    } else if entries_at(document, 2, version).len() > 0 {
        entries_at(document, 2, version)
    } else {
        entries_at(document, 3, version)
    }
}

/// The one of `entries` that belongs to the unit `name`: the only one
/// there is, or else the only one whose title holds the name.
pub open spec fn entry_of(entries: Seq<Entry>, name: Seq<char>) -> Result<Seq<char>, NotesError> {
    if entries.len() == 0 {
        Err(NotesError::MissingEntry)
    } else if entries.len() == 1 {
        Ok(entries[0].1)
    } else {
        let named = entries.filter(titled_like(name));
        if named.len() == 0 {
            Err(NotesError::MissingNamedEntry)
        } else if named.len() == 1 {
            Ok(named[0].1)
        } else {
            Err(NotesError::AmbiguousEntry)
        }
    }
}

/// The release notes that `document` holds for the version `version` of
/// the unit `name`.
pub open spec fn release_notes(document: Seq<char>, name: Seq<char>, version: Seq<char>) -> Result<
    Seq<char>,
    NotesError,
> {
    entry_of(entries_for(document, version), name)
}

/// The titles and bodies of `entries`.
pub open spec fn entry_views(entries: Seq<(&str, &str)>) -> Seq<Entry> {
    Seq::new(entries.len(), |i: int| (entries[i].0@, entries[i].1@))
}

/// The sections of `document` at `level` whose title holds `needle`.
fn matching_entries<'a>(document: &'a str, level: u8, needle: &Vec<char>) -> (r: Vec<
    (&'a str, &'a str),
>)
    ensures
        entry_views(r@) == entries_at(document@, level, needle@),
{
    let all = Markdown(document).sections(level);
    let ghost secs = sections(document@, HeaderSyntax::Heading(level));
    let mut out: Vec<(&'a str, &'a str)> = Vec::new();
    let mut k: usize = 0;
    proof {
        reveal(Seq::filter);
        assert(secs.take(0).filter(titled(needle@)) =~= Seq::<Entry>::empty());
    }
    while k < all.len()
        invariant
            secs == sections(document@, HeaderSyntax::Heading(level)),
            all@.len() == secs.len(),
            forall|t: int|
                0 <= t < all@.len() ==> ((#[trigger] all@[t]).0@, all@[t].1.0@) == secs[t],
            0 <= k <= all.len(),
            entry_views(out@) == secs.take(k as int).filter(titled(needle@)),
        decreases all.len() - k,
    {
        let title = all[k].0;
        let body = all[k].1.0;
        let hit = contains(&to_chars(title), needle);
        proof {
            reveal(Seq::filter);
            assert(secs.take(k + 1).drop_last() =~= secs.take(k as int));
            assert(secs.take(k + 1).last() == secs[k as int]);
            assert((title@, body@) == secs[k as int]);
        }
        if hit {
            let ghost before = entry_views(out@);
            out.push((title, body));
            assert(entry_views(out@) =~= before.push((title@, body@)));
        }
        k += 1;
    }
    assert(secs.take(all@.len() as int) =~= secs);
    out
}

/// Picks from `entries` the one that belongs to the unit `name`.
pub fn pick_entry<'a>(entries: &Vec<(&'a str, &'a str)>, name: &str) -> (r: Result<
    &'a str,
    NotesError,
>)
    ensures
        match r {
            Ok(notes) => entry_of(entry_views(entries@), name@) == Ok::<Seq<char>, NotesError>(
                notes@,
            ),
            Err(e) => entry_of(entry_views(entries@), name@) == Err::<Seq<char>, NotesError>(e),
        },
{
    if entries.len() == 0 {
        return Err(NotesError::MissingEntry);
    }
    if entries.len() == 1 {
        return Ok(entries[0].1);
    }
    let key = to_lowercase(&to_chars(name));
    let ghost all = entry_views(entries@);
    let ghost like = titled_like(name@);
    let mut found: Option<&'a str> = None;
    let mut k: usize = 0;
    proof {
        reveal(Seq::filter);
        assert(all.take(0).filter(like) =~= Seq::<Entry>::empty());
    }
    while k < entries.len()
        invariant
            all == entry_views(entries@),
            like == titled_like(name@),
            key@ == lowercase(name@),
            0 <= k <= entries.len(),
            all.take(k as int).filter(like).len() <= 1,
            match found {
                Some(notes) => all.take(k as int).filter(like).len() == 1 && all.take(
                    k as int,
                ).filter(like)[0].1 == notes@,
                None => all.take(k as int).filter(like).len() == 0,
            },
        decreases entries.len() - k,
    {
        let title = to_lowercase(&to_chars(entries[k].0));
        let hit = contains(&title, &key);
        proof {
            reveal(Seq::filter);
            assert(all.take(k + 1).drop_last() =~= all.take(k as int));
            assert(all.take(k + 1).last() == all[k as int]);
            assert(hit == like(all[k as int]));
        }
        if hit {
            if found.is_some() {
                proof {
                    // Two are found, and what follows can only add to them.
                    assert(all.take(k + 1).filter(like).len() == 2);
                    assert(all.take(all.len() as int) =~= all);
                    all.lemma_filter_take_len(like, k + 1);
                }
                return Err(NotesError::AmbiguousEntry);
            }
            found = Some(entries[k].1);
        }
        k += 1;
    }
    assert(all.take(entries@.len() as int) =~= all);
    match found {
        Some(notes) => Ok(notes),
        None => Err(NotesError::MissingNamedEntry),
    }
}

/// Looks up the release notes for the version `version` of the unit `name`
/// in the change document `document`.
///
/// The headings of level one are searched for the version, then those of
/// level two, then those of level three; the first level with a match
/// decides. One match is the entry. Of several, the one whose title also
/// holds the unit's name is the entry.
pub fn lookup_release_notes<'a>(document: &'a str, name: &str, version: &str) -> (r: Result<
    &'a str,
    NotesError,
>)
    ensures
        match r {
            Ok(notes) => release_notes(document@, name@, version@) == Ok::<Seq<char>, NotesError>(
                notes@,
            ),
            Err(e) => release_notes(document@, name@, version@) == Err::<Seq<char>, NotesError>(e),
        },
        (forall|level: u8, k: int|
            1 <= level <= 3 && 0 <= k < sections(document@, HeaderSyntax::Heading(level)).len()
                ==> !has_substring(
                (#[trigger] sections(document@, HeaderSyntax::Heading(level))[k]).0,
                version@,
            )) ==> r == Err::<&str, NotesError>(NotesError::MissingEntry),
{
    let needle = to_chars(version);
    proof {
        lemma_unmentioned_version(document@, name@, version@);
    }
    let first = matching_entries(document, 1, &needle);
    if first.len() > 0 {
        return pick_entry(&first, name);
    }
    let second = matching_entries(document, 2, &needle);
    if second.len() > 0 {
        return pick_entry(&second, name);
    }
    let third = matching_entries(document, 3, &needle);
    pick_entry(&third, name)
}

/// A version that no heading of the first three levels holds has no
/// release notes: the lookup ends with `MissingEntry`.
pub proof fn lemma_unmentioned_version(document: Seq<char>, name: Seq<char>, version: Seq<char>)
    ensures
        (forall|level: u8, k: int|
            1 <= level <= 3 && 0 <= k < sections(document, HeaderSyntax::Heading(level)).len()
                ==> !has_substring(
                (#[trigger] sections(document, HeaderSyntax::Heading(level))[k]).0,
                version,
            )) ==> release_notes(document, name, version) == Err::<Seq<char>, NotesError>(
            NotesError::MissingEntry,
        ),
{
    if forall|level: u8, k: int|
        1 <= level <= 3 && 0 <= k < sections(document, HeaderSyntax::Heading(level)).len()
            ==> !has_substring(
            (#[trigger] sections(document, HeaderSyntax::Heading(level))[k]).0,
            version,
        ) {
        assert forall|level: u8| 1 <= level <= 3 implies #[trigger] entries_at(
            document,
            level,
            version,
        ).len() == 0 by {
            let secs = sections(document, HeaderSyntax::Heading(level));
            assert forall|k: int| 0 <= k < secs.len() implies !titled(version)(
                #[trigger] secs[k],
            ) by {}
            secs.lemma_all_neg_filter_empty(titled(version));
        }
        assert(entries_at(document, 1, version).len() == 0);
        assert(entries_at(document, 2, version).len() == 0);
        assert(entries_at(document, 3, version).len() == 0);
    }
}


/// A failed lookup, and the unit it was made for: its place in the list.
#[derive(Clone, Copy, Debug, PartialEq, Eq, Structural)]
pub struct NotesFailure {
    pub unit: usize,
    pub error: NotesError,
}

/// The text of the change document that applies to unit `i`, where one
/// does.
pub open spec fn document_at(documents: Seq<Option<String>>, i: int) -> Option<Seq<char>> {
    if 0 <= i < documents.len() {
        text_of(documents[i])
    } else {
        None
    }
}

/// `unit` with the release notes that `document` holds for it. Without a
/// document the unit stays as it is.
pub open spec fn with_notes(unit: PackageView, document: Option<Seq<char>>) -> Result<
    PackageView,
    NotesError,
> {
    match document {
        None => Ok(unit),
        Some(text) => match release_notes(text, unit.name, unit.version) {
            Ok(notes) => Ok(
                PackageView {
                    name: unit.name,
                    version: unit.version,
                    changelog_path: unit.changelog_path,
                    release_notes: Some(notes),
                    manifest: unit.manifest,
                },
            ),
            Err(e) => Err(e),
        },
    }
}

/// Gives every unit the release notes for its version.
///
/// `documents` holds, at the place of each unit, the text of the change
/// document that applies to it, or nothing. The units are taken in order,
/// and the first lookup that fails ends the work: the units before it have
/// their notes, the others are untouched.
pub fn extract_release_notes(packages: &mut Vec<Package>, documents: &Vec<Option<String>>) -> (r:
    Result<(), NotesFailure>)
    ensures
        final(packages)@.len() == old(packages)@.len(),
        match r {
            Ok(_) => forall|i: int|
                0 <= i < old(packages)@.len() ==> with_notes(
                    (#[trigger] old(packages)@[i])@,
                    document_at(documents@, i),
                ) == Ok::<PackageView, NotesError>(final(packages)@[i]@),
            Err(f) => {
                &&& f.unit < old(packages)@.len()
                &&& with_notes(old(packages)@[f.unit as int]@, document_at(documents@, f.unit as int))
                    == Err::<PackageView, NotesError>(f.error)
                &&& forall|i: int|
                    0 <= i < f.unit ==> with_notes(
                        (#[trigger] old(packages)@[i])@,
                        document_at(documents@, i),
                    ) == Ok::<PackageView, NotesError>(final(packages)@[i]@)
                &&& forall|i: int|
                    f.unit <= i < old(packages)@.len() ==> (#[trigger] final(packages)@[i])@
                        == old(packages)@[i]@
            },
        },
{
    let n = packages.len();
    let mut i: usize = 0;
    while i < n
        invariant
            n == packages@.len(),
            n == old(packages)@.len(),
            0 <= i <= n,
            forall|k: int|
                0 <= k < i ==> with_notes(
                    (#[trigger] old(packages)@[k])@,
                    document_at(documents@, k),
                ) == Ok::<PackageView, NotesError>(packages@[k]@),
            forall|k: int| i <= k < n ==> (#[trigger] packages@[k])@ == old(packages)@[k]@,
        decreases n - i,
    {
        if i < documents.len() {
            match &documents[i] {
                Some(text) => {
                    let mut package = packages[i].clone();
                    match lookup_release_notes(
                        text.as_str(),
                        package.name.as_str(),
                        package.version.as_str(),
                    ) {
                        Ok(notes) => {
                            package.release_notes = Some(notes.to_owned());
                            packages.set(i, package);
                        },
                        Err(error) => {
                            return Err(NotesFailure { unit: i, error });
                        },
                    }
                },
                None => {},
            }
        }
        i += 1;
    }
    Ok(())
}

} // verus!
