//! Deciding what is left to publish, under which tags, and with which
//! release notes.
//!
//! Nothing here runs a command: the plan says what to publish, which tags
//! to set and which releases to create, and the caller acts on it.

use vstd::prelude::*;
use vstd::string::*;
use crate::package::{views, Package, PackageView};
use crate::text::{ends_with, has_suffix, to_chars};

verus! {

/// The tag under which every unit of version `version` is released at once.
pub open spec fn collective_tag(version: Seq<char>) -> Seq<char> {
    "v"@ + version
}

/// The tag under which the unit `name` alone is released in version
/// `version`.
pub open spec fn unit_tag(name: Seq<char>, version: Seq<char>) -> Seq<char> {
    name + "-v"@ + version
}

/// One of `tags` says that `unit` was released in its version.
pub open spec fn is_released(unit: PackageView, tags: Seq<Seq<char>>) -> bool {
    tags.contains(collective_tag(unit.version)) || tags.contains(
        unit_tag(unit.name, unit.version),
    )
}

/// The units that no tag says were released.
pub open spec fn unreleased(tags: Seq<Seq<char>>) -> spec_fn(PackageView) -> bool {
    |unit: PackageView| !is_released(unit, tags)
}

/// Some unit has a change document of its own.
pub open spec fn any_own_changelog(units: Seq<PackageView>) -> bool {
    exists|i: int| 0 <= i < units.len() && (#[trigger] units[i]).changelog_path is Some
}

/// All units of the batch have the version of the first.
pub open spec fn same_version(batch: Seq<PackageView>) -> bool {
    forall|i: int| 0 <= i < batch.len() ==> (#[trigger] batch[i]).version == batch[0].version
}

/// Some tag ends with `version`.
pub open spec fn any_tag_for(tags: Seq<Seq<char>>, version: Seq<char>) -> bool {
    exists|i: int| 0 <= i < tags.len() && has_suffix(#[trigger] tags[i], version)
}

/// Whether each unit of the batch gets a tag and a release of its own,
/// rather than all of them one together. It does where some unit of the
/// workspace has a change document of its own, where the batch is not all
/// of one version, or where a tag for that version exists already.
pub open spec fn separate_tags(
    units: Seq<PackageView>,
    batch: Seq<PackageView>,
    tags: Seq<Seq<char>>,
) -> bool {
    any_own_changelog(units) || (batch.len() > 0 && (!same_version(batch) || any_tag_for(
        tags,
        batch[0].version,
    )))
}

/// The tags to set for the batch.
pub open spec fn tags_to_set(batch: Seq<PackageView>, separate: bool) -> Seq<Seq<char>> {
    if batch.len() == 0 {
        Seq::empty()
    } else if separate {
        Seq::new(batch.len(), |i: int| unit_tag(batch[i].name, batch[i].version))
    } else {
        seq![collective_tag(batch[0].version)]
    }
}

/// A release to create: the tag it hangs on, and its notes.
#[derive(Debug)]
pub struct Release {
    pub tag: String,
    pub notes: String,
}

/// A release as the specifications see it.
pub struct ReleaseView {
    pub tag: Seq<char>,
    pub notes: Seq<char>,
}

impl View for Release {
    type V = ReleaseView;

    open spec fn view(&self) -> ReleaseView {
        ReleaseView { tag: self.tag@, notes: self.notes@ }
    }
}

/// Among the first `upto` units of the batch, those whose notes go into
/// the release that all share: a unit without notes is left out, and so is
/// one whose notes are those of the unit taken before it.
pub open spec fn noted(batch: Seq<PackageView>, upto: int) -> Seq<PackageView>
    decreases upto,
{
    if upto <= 0 {
        Seq::empty()
    } else {
        let before = noted(batch, upto - 1);
        let unit = batch[upto - 1];
        if unit.release_notes is None || (before.len() > 0 && before.last().release_notes
            == unit.release_notes) {
            before
        } else {
            before.push(unit)
        }
    }
}

/// The heading over the notes of a unit in a release that several share.
pub open spec fn notes_heading(unit: PackageView) -> Seq<char> {
    "# "@ + unit.name + " "@ + unit.version + "\n\n"@
}

/// The notes of the first `upto` of `entries`, put together: each ends with
/// a line feed, an empty line parts one from the next, and each stands
/// under a heading where there are several.
pub open spec fn merged_notes(entries: Seq<PackageView>, upto: int) -> Seq<char>
    decreases upto,
{
    if upto <= 0 {
        Seq::empty()
    } else {
        let before = merged_notes(entries, upto - 1);
        let unit = entries[upto - 1];
        before + (if upto > 1 {
            "\n"@
        } else {
            Seq::empty()
        }) + (if entries.len() > 1 {
            notes_heading(unit)
        } else {
            Seq::empty()
        }) + unit.release_notes->0 + "\n"@
    }
}

/// The releases of the first `upto` units of a batch where each unit has
/// its own: one for every unit with notes.
pub open spec fn unit_releases(batch: Seq<PackageView>, upto: int) -> Seq<ReleaseView>
    decreases upto,
{
    if upto <= 0 {
        Seq::empty()
    } else {
        let before = unit_releases(batch, upto - 1);
        let unit = batch[upto - 1];
        match unit.release_notes {
            Some(notes) => before.push(
                ReleaseView { tag: unit_tag(unit.name, unit.version), notes },
            ),
            None => before,
        }
    }
}

/// The releases to create for the batch.
pub open spec fn releases_for(batch: Seq<PackageView>, separate: bool) -> Seq<ReleaseView> {
    if separate {
        unit_releases(batch, batch.len() as int)
    } else {
        let entries = noted(batch, batch.len() as int);
        if entries.len() == 0 {
            Seq::empty()
        } else {
            seq![
                ReleaseView {
                    tag: collective_tag(batch[0].version),
                    notes: merged_notes(entries, entries.len() as int),
                },
            ]
        }
    }
}

/// The texts of `tags`.
pub open spec fn tag_texts(tags: Seq<String>) -> Seq<Seq<char>> {
    Seq::new(tags.len(), |i: int| tags[i]@)
}

/// The releases as the specifications see them.
pub open spec fn release_views(releases: Seq<Release>) -> Seq<ReleaseView> {
    Seq::new(releases.len(), |i: int| releases[i]@)
}

/// The tag `v<version>`.
pub fn make_collective_tag(version: &str) -> (r: String)
    ensures
        r@ == collective_tag(version@),
{
    let mut r = String::new();
    r.append("v");
    r.append(version);
    assert(r@ =~= collective_tag(version@));
    r
}

/// The tag `<name>-v<version>`.
pub fn make_unit_tag(name: &str, version: &str) -> (r: String)
    ensures
        r@ == unit_tag(name@, version@),
{
    let mut r = String::new();
    r.append(name);
    r.append("-v");
    r.append(version);
    assert(r@ =~= unit_tag(name@, version@));
    r
}

/// Whether `tag` is among `tags`.
fn has_tag(tags: &Vec<String>, tag: &String) -> (r: bool)
    ensures
        r == tag_texts(tags@).contains(tag@),
{
    let mut i: usize = 0;
    while i < tags.len()
        invariant
            0 <= i <= tags.len(),
            forall|k: int| 0 <= k < i ==> #[trigger] tag_texts(tags@)[k] != tag@,
        decreases tags.len() - i,
    {
        if tags[i] == *tag {
            assert(tag_texts(tags@)[i as int] == tag@);
            return true;
        }
        i += 1;
    }
    false
}

/// Whether a tag says that `package` was released in its version.
pub fn already_released(package: &Package, tags: &Vec<String>) -> (r: bool)
    ensures
        r == is_released(package@, tag_texts(tags@)),
{
    let collective = make_collective_tag(package.version.as_str());
    let own = make_unit_tag(package.name.as_str(), package.version.as_str());
    has_tag(tags, &collective) || has_tag(tags, &own)
}


/// What is to be done to bring the workspace's releases up to date.
#[derive(Debug)]
pub struct PublishPlan {
    /// The units to publish, in the order in which to publish them.
    pub to_publish: Vec<Package>,
    /// Whether each unit gets a tag and a release of its own.
    pub separate_tags: bool,
    /// The tags to set.
    pub tags: Vec<String>,
    /// The releases to create.
    pub releases: Vec<Release>,
}

impl PublishPlan {
    /// Whether the releases of the plan are withheld: a release that the
    /// units share is created only where a token for the release service
    /// is at hand. Releases of single units are never withheld.
    pub fn releases_withheld(&self, has_release_token: bool) -> (r: bool)
        ensures
            r == (!self.separate_tags && self.releases@.len() > 0 && !has_release_token),
    {
        !self.separate_tags && self.releases.len() > 0 && !has_release_token
    }
}

/// Why nothing can be planned.
#[derive(Clone, Copy, Debug, PartialEq, Eq, Structural)]
pub enum PublishError {
    /// The workspace has no unit that could be published.
    NoPackages,
}

fn select_unreleased(packages: &Vec<Package>, tags: &Vec<String>) -> (batch: Vec<Package>)
    ensures
        views(batch@) == views(packages@).filter(unreleased(tag_texts(tags@))),
{
    let ghost units = views(packages@);
    let ghost keep = unreleased(tag_texts(tags@));
    let mut batch: Vec<Package> = Vec::new();
    let mut i: usize = 0;
    proof {
        reveal(Seq::filter);
        assert(units.take(0).filter(keep) =~= views(batch@));
    }
    while i < packages.len()
        invariant
            units == views(packages@),
            keep == unreleased(tag_texts(tags@)),
            0 <= i <= packages.len(),
            views(batch@) == units.take(i as int).filter(keep),
        decreases packages.len() - i,
    {
        let released = already_released(&packages[i], tags);
        proof {
            reveal(Seq::filter);
            assert(units.take(i + 1).drop_last() =~= units.take(i as int));
            assert(units.take(i + 1).last() == packages@[i as int]@);
        }
        if !released {
            let ghost before = views(batch@);
            let package = packages[i].clone();
            batch.push(package);
            assert(views(batch@) =~= before.push(packages@[i as int]@));
        }
        i += 1;
    }
    assert(units.take(packages@.len() as int) =~= units);
    batch
}

fn has_own_changelog(packages: &Vec<Package>) -> (r: bool)
    ensures
        r == any_own_changelog(views(packages@)),
{
    let mut i: usize = 0;
    while i < packages.len()
        invariant
            0 <= i <= packages.len(),
            forall|k: int| 0 <= k < i ==> (#[trigger] views(packages@)[k]).changelog_path is None,
        decreases packages.len() - i,
    {
        if packages[i].changelog_path.is_some() {
            assert(views(packages@)[i as int].changelog_path is Some);
            return true;
        }
        i += 1;
    }
    false
}

fn all_same_version(batch: &Vec<Package>) -> (r: bool)
    ensures
        r == same_version(views(batch@)),
{
    let mut i: usize = 0;
    while i < batch.len()
        invariant
            0 <= i <= batch.len(),
            forall|k: int|
                0 <= k < i ==> (#[trigger] views(batch@)[k]).version == views(batch@)[0].version,
        decreases batch.len() - i,
    {
        if batch[i].version != batch[0].version {
            assert(views(batch@)[i as int].version != views(batch@)[0].version);
            return false;
        }
        i += 1;
    }
    true
}

fn has_tag_for(tags: &Vec<String>, version: &str) -> (r: bool)
    ensures
        r == any_tag_for(tag_texts(tags@), version@),
{
    let suffix = to_chars(version);
    let mut i: usize = 0;
    while i < tags.len()
        invariant
            suffix@ == version@,
            0 <= i <= tags.len(),
            forall|k: int| 0 <= k < i ==> !has_suffix(#[trigger] tag_texts(tags@)[k], version@),
        decreases tags.len() - i,
    {
        let tag = to_chars(tags[i].as_str());
        assert(tag@.subrange(0, tag@.len() as int) =~= tag@);
        if ends_with(&tag, 0, tag.len(), &suffix) {
            assert(has_suffix(tag_texts(tags@)[i as int], version@));
            return true;
        }
        i += 1;
    }
    false
}

fn make_tags(batch: &Vec<Package>, separate: bool) -> (tags: Vec<String>)
    ensures
        tag_texts(tags@) == tags_to_set(views(batch@), separate),
{
    let mut tags: Vec<String> = Vec::new();
    if batch.len() == 0 {
        assert(tag_texts(tags@) =~= Seq::<Seq<char>>::empty());
        return tags;
    }
    if !separate {
        tags.push(make_collective_tag(batch[0].version.as_str()));
        assert(tag_texts(tags@) =~= seq![collective_tag(views(batch@)[0].version)]);
        return tags;
    }
    let mut i: usize = 0;
    while i < batch.len()
        invariant
            0 <= i <= batch.len(),
            tags@.len() == i,
            forall|k: int|
                0 <= k < i ==> (#[trigger] tags@[k])@ == unit_tag(
                    batch@[k].name@,
                    batch@[k].version@,
                ),
        decreases batch.len() - i,
    {
        tags.push(make_unit_tag(batch[i].name.as_str(), batch[i].version.as_str()));
        i += 1;
    }
    assert(tag_texts(tags@) =~= tags_to_set(views(batch@), separate));
    tags
}

fn make_unit_releases(batch: &Vec<Package>) -> (releases: Vec<Release>)
    ensures
        release_views(releases@) == unit_releases(views(batch@), batch@.len() as int),
{
    let ghost units = views(batch@);
    let mut releases: Vec<Release> = Vec::new();
    let mut i: usize = 0;
    assert(release_views(releases@) =~= unit_releases(units, 0));
    while i < batch.len()
        invariant
            units == views(batch@),
            0 <= i <= batch.len(),
            release_views(releases@) == unit_releases(units, i as int),
        decreases batch.len() - i,
    {
        let ghost before = release_views(releases@);
        match &batch[i].release_notes {
            Some(notes) => {
                let tag = make_unit_tag(batch[i].name.as_str(), batch[i].version.as_str());
                let release = Release { tag, notes: notes.clone() };
                releases.push(release);
                assert(release_views(releases@) =~= before.push(release@));
            },
            None => {},
        }
        i += 1;
    }
    releases
}

/// The positions in the batch of the units whose notes go into the shared
/// release.
fn select_noted(batch: &Vec<Package>) -> (picks: Vec<usize>)
    ensures
        picks@.len() == noted(views(batch@), batch@.len() as int).len(),
        forall|k: int|
            0 <= k < picks@.len() ==> #[trigger] picks@[k] < batch@.len() && batch@[picks@[k] as int]@
                == noted(views(batch@), batch@.len() as int)[k],
{
    let ghost units = views(batch@);
    let mut picks: Vec<usize> = Vec::new();
    let mut i: usize = 0;
    while i < batch.len()
        invariant
            units == views(batch@),
            0 <= i <= batch.len(),
            picks@.len() == noted(units, i as int).len(),
            forall|k: int|
                0 <= k < picks@.len() ==> #[trigger] picks@[k] < batch@.len()
                    && batch@[picks@[k] as int]@ == noted(units, i as int)[k],
        decreases batch.len() - i,
    {
        match &batch[i].release_notes {
            Some(notes) => {
                let repeated = if picks.len() > 0 {
                    match &batch[picks[picks.len() - 1]].release_notes {
                        Some(previous) => *previous == *notes,
                        None => false,
                    }
                } else {
                    false
                };
                if !repeated {
                    picks.push(i);
                }
            },
            None => {},
        }
        i += 1;
    }
    picks
}

/// The notes of the units at `picks`, put together.
fn merge_notes(
    batch: &Vec<Package>,
    picks: &Vec<usize>,
    Ghost(entries): Ghost<Seq<PackageView>>,
) -> (text: String)
    requires
        entries.len() == picks@.len(),
        forall|k: int|
            0 <= k < picks@.len() ==> #[trigger] picks@[k] < batch@.len() && batch@[picks@[k] as int]@
                == entries[k] && entries[k].release_notes is Some,
    ensures
        text@ == merged_notes(entries, entries.len() as int),
{
    let mut text = String::new();
    let mut k: usize = 0;
    assert(text@ =~= merged_notes(entries, 0));
    while k < picks.len()
        invariant
            entries.len() == picks@.len(),
            forall|k: int|
                0 <= k < picks@.len() ==> #[trigger] picks@[k] < batch@.len()
                    && batch@[picks@[k] as int]@ == entries[k] && entries[k].release_notes is Some,
            0 <= k <= picks.len(),
            text@ == merged_notes(entries, k as int),
        decreases picks.len() - k,
    {
        let ghost before = text@;
        let package = &batch[picks[k]];
        assert(package@ == entries[k as int]);
        if k > 0 {
            text.append("\n");
        }
        if picks.len() > 1 {
            text.append("# ");
            text.append(package.name.as_str());
            text.append(" ");
            text.append(package.version.as_str());
            text.append("\n\n");
        }
        match &package.release_notes {
            Some(notes) => {
                text.append(notes.as_str());
            },
            None => {},
        }
        text.append("\n");
        proof {
            let unit = entries[k as int];
            assert(text@ =~= before + (if k + 1 > 1 {
                "\n"@
            } else {
                Seq::empty()
            }) + (if entries.len() > 1 {
                notes_heading(unit)
            } else {
                Seq::empty()
            }) + unit.release_notes->0 + "\n"@);
        }
        k += 1;
    }
    text
}


/// Every unit that `noted` keeps has notes.
pub proof fn lemma_noted_have_notes(batch: Seq<PackageView>, upto: int)
    requires
        upto <= batch.len(),
    ensures
        forall|k: int|
            0 <= k < noted(batch, upto).len() ==> (#[trigger] noted(batch, upto)[k]).release_notes
                is Some,
    decreases upto,
{
    if upto > 0 {
        lemma_noted_have_notes(batch, upto - 1);
    }
}

/// Plans the publishing of the units `packages`, given the tags that
/// exist.
///
/// The batch to publish is every unit that no tag says was released, in
/// the order of `packages`. Where nothing is left to publish, the plan
/// holds no tag and no release.
pub fn plan_publish(packages: &Vec<Package>, tags: &Vec<String>) -> (r: Result<
    PublishPlan,
    PublishError,
>)
    ensures
        packages@.len() == 0 <==> r is Err,
        match r {
            Ok(plan) => {
                let batch = views(packages@).filter(unreleased(tag_texts(tags@)));
                &&& views(plan.to_publish@) == batch
                &&& plan.separate_tags == separate_tags(views(packages@), batch, tag_texts(tags@))
                &&& tag_texts(plan.tags@) == tags_to_set(batch, plan.separate_tags)
                &&& release_views(plan.releases@) == if batch.len() == 0 {
                    Seq::empty()
                } else {
                    releases_for(batch, plan.separate_tags)
                }
            },
            Err(e) => e == PublishError::NoPackages,
        },
{
    if packages.len() == 0 {
        return Err(PublishError::NoPackages);
    }
    let to_publish = select_unreleased(packages, tags);
    let own = has_own_changelog(packages);
    if to_publish.len() == 0 {
        let none: Vec<Release> = Vec::new();
        assert(release_views(none@) =~= Seq::<ReleaseView>::empty());
        return Ok(
            PublishPlan {
                to_publish,
                separate_tags: own,
                tags: make_tags(&Vec::new(), own),
                releases: none,
            },
        );
    }
    let separate = own || !all_same_version(&to_publish) || has_tag_for(
        tags,
        to_publish[0].version.as_str(),
    );
    let new_tags = make_tags(&to_publish, separate);
    let releases = if separate {
        make_unit_releases(&to_publish)
    } else {
        let picks = select_noted(&to_publish);
        let mut releases: Vec<Release> = Vec::new();
        if picks.len() > 0 {
            let ghost entries = noted(views(to_publish@), to_publish@.len() as int);
            proof {
                lemma_noted_have_notes(views(to_publish@), to_publish@.len() as int);
            }
            let notes = merge_notes(&to_publish, &picks, Ghost(entries));
            let tag = make_collective_tag(to_publish[0].version.as_str());
            let release = Release { tag, notes };
            releases.push(release);
            assert(release_views(releases@) =~= seq![release@]);
        } else {
            assert(release_views(releases@) =~= Seq::<ReleaseView>::empty());
        }
        releases
    };
    Ok(PublishPlan { to_publish, separate_tags: separate, tags: new_tags, releases })
}

/// Whether a plan may be carried out.
#[derive(Clone, Copy, Debug, PartialEq, Eq, Structural)]
pub enum Gate {
    /// It may.
    Open,
    /// No token for the registry is at hand.
    NoToken,
    /// The branch that is checked out is not `main`.
    NotOnMain,
}

/// Whether a plan may be carried out: a token for the registry is needed,
/// and the branch has to be `main`. A missing token is reported first.
pub fn publish_gate(has_token: bool, branch: &str) -> (r: Gate)
    ensures
        r == if !has_token {
            Gate::NoToken
        } else if branch@ != "main"@ {
            Gate::NotOnMain
        } else {
            Gate::Open
        },
{
    if !has_token {
        return Gate::NoToken;
    }
    let v = to_chars(branch);
    let main = to_chars("main");
    assert(v@.subrange(0, v@.len() as int) =~= v@);
    if crate::text::range_eq(&v, 0, v.len(), &main) {
        Gate::Open
    } else {
        Gate::NotOnMain
    }
}

} // verus!
