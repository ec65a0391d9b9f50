//! Finding the units of a workspace in the manifests of its directories.
//!
//! The library reads no files. Its caller walks the directories, leaving
//! out what lies below an excluded directory, and hands over what it found:
//! for each directory its path, the text of its manifest and the path of
//! its change document, where it has them.

use vstd::prelude::*;
use vstd::string::*;
use crate::dependencies::{has_dependency_cycle, needs, publish_sequence, sort_packages};
use crate::package::{text_of, views, Package, PackageView};
use crate::text::{contains, ends_with, has_substring, has_suffix, to_chars};
use crate::toml::{lookup, table_body, Scalar, Toml, TomlError, Value};

verus! {

/// Why the units of a workspace could not be listed.
#[derive(Clone, Copy, Debug, PartialEq, Eq, Structural)]
pub enum ScanError {
    /// The directory that the scan starts from has no manifest.
    MissingRootManifest,
    /// A manifest opens a string in a field that is read, and does not
    /// close it.
    UnclosedString,
    /// The manifest of a unit gives it no name.
    MissingName,
    /// The name of a unit is not a string.
    NameNotString,
    /// The version of a unit, or of the workspace, is not a string.
    VersionNotString,
    /// A unit takes its version from the workspace, which has none.
    MissingVersion,
    /// Some unit needs itself through others.
    DependencyCycle,
}

/// An error, and the directory whose manifest gave rise to it: its place
/// in the list that was scanned. An error of the whole workspace is put
/// down to the first directory.
#[derive(Clone, Copy, Debug, PartialEq, Eq, Structural)]
pub struct ScanFailure {
    pub directory: usize,
    pub error: ScanError,
}

/// What holds for all units of a workspace.
#[derive(Debug)]
pub struct Workspace {
    /// The directory that the scan starts from.
    pub cwd: String,
    /// The version that units may take over from the workspace.
    pub version: Option<String>,
    /// The change document of the workspace.
    pub changelog: Option<String>,
}

/// A directory as the scan found it.
#[derive(Debug)]
pub struct Directory {
    pub path: String,
    /// The text of the manifest in the directory.
    pub manifest: Option<String>,
    /// The path of the change document in the directory.
    pub changelog: Option<String>,
}

/// The version that the root manifest `manifest` declares for the units of
/// the workspace, where it declares one: the field `package.version` of its
/// table `workspace`, or else the field `version` of its table
/// `workspace.package`, where that is a string. A manifest without either
/// table declares none.
pub open spec fn inherited_version(manifest: Seq<char>) -> Result<Option<Seq<char>>, ScanError> {
    let dotted = match table_body(manifest, "workspace"@) {
        Some(body) => lookup(body, "package.version"@),
        None => Err(TomlError::NotFound),
    };
    match dotted {
        Ok(Scalar::Str(v)) => Ok(Some(v)),
        Ok(Scalar::Bool(_)) => Err(ScanError::VersionNotString),
        Err(TomlError::UnclosedString) => Err(ScanError::UnclosedString),
        Err(TomlError::NotFound) => match table_body(manifest, "workspace.package"@) {
            Some(body) => match lookup(body, "version"@) {
                Ok(Scalar::Str(v)) => Ok(Some(v)),
                Ok(Scalar::Bool(_)) => Ok(None),
                Err(TomlError::UnclosedString) => Err(ScanError::UnclosedString),
                Err(TomlError::NotFound) => Ok(None),
            },
            None => Ok(None),
        },
    }
}

/// Whether `manifest` declares a unit that is to be published: it has a
/// `[package]` table, does not set `publish` to `false`, and has a field
/// `version` or `version.workspace`.
pub open spec fn is_publishable(manifest: Seq<char>) -> Result<bool, ScanError> {
    if !has_substring(manifest, "[package]"@) {
        Ok(false)
    } else {
        match lookup(manifest, "publish"@) {
            Err(TomlError::UnclosedString) => Err(ScanError::UnclosedString),
            Ok(Scalar::Bool(false)) => Ok(false),
            _ => match lookup(manifest, "version"@) {
                Err(TomlError::UnclosedString) => Err(ScanError::UnclosedString),
                Ok(_) => Ok(true),
                Err(TomlError::NotFound) => match lookup(manifest, "version.workspace"@) {
                    Err(TomlError::UnclosedString) => Err(ScanError::UnclosedString),
                    Ok(_) => Ok(true),
                    Err(TomlError::NotFound) => Ok(false),
                },
            },
        }
    }
}

/// The name that `manifest` gives its unit.
pub open spec fn unit_name(manifest: Seq<char>) -> Result<Seq<char>, ScanError> {
    match lookup(manifest, "name"@) {
        Ok(Scalar::Str(v)) => Ok(v),
        Ok(Scalar::Bool(_)) => Err(ScanError::NameNotString),
        Err(TomlError::UnclosedString) => Err(ScanError::UnclosedString),
        Err(TomlError::NotFound) => Err(ScanError::MissingName),
    }
}

/// The version of the unit of `manifest`: its own, or that of the
/// workspace where it has none of its own.
pub open spec fn unit_version(manifest: Seq<char>, inherited: Option<Seq<char>>) -> Result<
    Seq<char>,
    ScanError,
> {
    match lookup(manifest, "version"@) {
        Ok(Scalar::Str(v)) => Ok(v),
        Ok(Scalar::Bool(_)) => Err(ScanError::VersionNotString),
        Err(TomlError::UnclosedString) => Err(ScanError::UnclosedString),
        Err(TomlError::NotFound) => match inherited {
            Some(v) => Ok(v),
            None => Err(ScanError::MissingVersion),
        },
    }
}

/// The change document of a unit: the one in its directory, unless that
/// is the one of the workspace.
pub open spec fn unit_changelog(own: Option<Seq<char>>, shared: Option<Seq<char>>) -> Option<
    Seq<char>,
> {
    if own is Some && own != shared {
        own
    } else {
        None
    }
}

/// The unit that the manifest of a directory declares, if it declares one
/// that is to be published.
pub open spec fn unit_of(
    manifest: Seq<char>,
    own_changelog: Option<Seq<char>>,
    inherited: Option<Seq<char>>,
    shared_changelog: Option<Seq<char>>,
) -> Result<Option<PackageView>, ScanError> {
    match is_publishable(manifest) {
        Err(e) => Err(e),
        Ok(false) => Ok(None),
        Ok(true) => match unit_name(manifest) {
            Err(e) => Err(e),
            Ok(name) => match unit_version(manifest, inherited) {
                Err(e) => Err(e),
                Ok(version) => Ok(
                    Some(
                        PackageView {
                            name,
                            version,
                            changelog_path: unit_changelog(own_changelog, shared_changelog),
                            release_notes: None,
                            manifest,
                        },
                    ),
                ),
            },
        },
    }
}

/// A unit whose manifest declares a version has that version, whatever
/// the workspace declares.
pub proof fn lemma_declared_version(
    manifest: Seq<char>,
    own_changelog: Option<Seq<char>>,
    inherited: Option<Seq<char>>,
    shared_changelog: Option<Seq<char>>,
    version: Seq<char>,
)
    requires
        lookup(manifest, "version"@) == Ok::<Scalar, TomlError>(Scalar::Str(version)),
    ensures
        match unit_of(manifest, own_changelog, inherited, shared_changelog) {
            Ok(Some(unit)) => unit.version == version,
            _ => true,
        },
{
}

/// A unit whose manifest declares no version, and defers to the workspace,
/// has the version of the workspace; without one there, it is an error.
pub proof fn lemma_workspace_version(
    manifest: Seq<char>,
    own_changelog: Option<Seq<char>>,
    inherited: Option<Seq<char>>,
    shared_changelog: Option<Seq<char>>,
)
    requires
        lookup(manifest, "version"@) == Err::<Scalar, TomlError>(TomlError::NotFound),
        lookup(manifest, "version.workspace"@) is Ok,
    ensures
        match unit_of(manifest, own_changelog, inherited, shared_changelog) {
            Ok(Some(unit)) => inherited == Some(unit.version),
            Ok(None) => !has_substring(manifest, "[package]"@) || lookup(manifest, "publish"@)
                == Ok::<Scalar, TomlError>(Scalar::Bool(false)),
            Err(e) => e == ScanError::MissingVersion ==> inherited is None,
        },
{
}

/// Whether the scan leaves out what lies below the directory `path`: it does
/// where the path ends in `excluded`.
pub fn is_excluded(path: &str, excluded: &str) -> (r: bool)
    ensures
        r == has_suffix(path@, excluded@),
{
    let v = to_chars(path);
    let p = to_chars(excluded);
    assert(v@.subrange(0, v@.len() as int) =~= v@);
    ends_with(&v, 0, v.len(), &p)
}

fn read_field<'a>(manifest: &'a str, name: &str) -> (r: Result<Option<Value<'a>>, ScanError>)
    ensures
        match r {
            Ok(Some(v)) => lookup(manifest@, name@) == Ok::<Scalar, TomlError>(v@),
            Ok(None) => lookup(manifest@, name@) == Err::<Scalar, TomlError>(TomlError::NotFound),
            Err(e) => e == ScanError::UnclosedString && lookup(manifest@, name@) == Err::<
                Scalar,
                TomlError,
            >(TomlError::UnclosedString),
        },
{
    match Toml(manifest).get_field(name) {
        Ok(v) => Ok(Some(v)),
        Err(TomlError::NotFound) => Ok(None),
        Err(TomlError::UnclosedString) => Err(ScanError::UnclosedString),
    }
}

impl Workspace {
    /// The version that the root manifest declares for the units of the
    /// workspace.
    pub fn inherited_version(manifest: &str) -> (r: Result<Option<String>, ScanError>)
        ensures
            match r {
                Ok(v) => inherited_version(manifest@) == Ok::<Option<Seq<char>>, ScanError>(
                    text_of(v),
                ),
                Err(e) => inherited_version(manifest@) == Err::<Option<Seq<char>>, ScanError>(e),
            },
    {
        let dotted = match Toml(manifest).section("workspace") {
            Some(table) => read_field(table.0, "package.version")?,
            None => None,
        };
        match dotted {
            Some(Value::Str(v)) => Ok(Some(v.to_owned())),
            Some(Value::Bool(_)) => Err(ScanError::VersionNotString),
            None => match Toml(manifest).section("workspace.package") {
                Some(table) => match read_field(table.0, "version")? {
                    Some(Value::Str(v)) => Ok(Some(v.to_owned())),
                    _ => Ok(None),
                },
                None => Ok(None),
            },
        }
    }

    /// The workspace of the directory `cwd`, by the text of the manifest in
    /// it, where there is one, and the path of the change document in it,
    /// where there is one.
    pub fn new(cwd: String, manifest: Option<&str>, changelog: Option<String>) -> (r: Result<
        Workspace,
        ScanError,
    >)
        ensures
            match r {
                Ok(w) => w.cwd == cwd && w.changelog == changelog && match manifest {
                    Some(m) => inherited_version(m@) == Ok::<Option<Seq<char>>, ScanError>(
                        text_of(w.version),
                    ),
                    None => w.version is None,
                },
                Err(e) => manifest matches Some(m) && inherited_version(m@) == Err::<
                    Option<Seq<char>>,
                    ScanError,
                >(e),
            },
    {
        let version = match manifest {
            Some(m) => Workspace::inherited_version(m)?,
            None => None,
        };
        Ok(Workspace { cwd, version, changelog })
    }

    /// The change document in which the release notes of `package` are
    /// looked up: its own, or else that of the workspace.
    pub fn changelog_for<'a>(&'a self, package: &'a Package) -> (r: Option<&'a str>)
        ensures
            match r {
                Some(path) => Some(path@) == if package.changelog_path is Some {
                    text_of(package.changelog_path)
                } else {
                    text_of(self.changelog)
                },
                None => package.changelog_path is None && self.changelog is None,
            },
    {
        match &package.changelog_path {
            Some(path) => Some(path.as_str()),
            None => match &self.changelog {
                Some(path) => Some(path.as_str()),
                None => None,
            },
        }
    }

    /// The unit that the manifest of a directory declares, if it declares
    /// one that is to be published. `own_changelog` is the path of the
    /// change document in that directory.
    pub fn package_in(&self, manifest: &str, own_changelog: &Option<String>) -> (r: Result<
        Option<Package>,
        ScanError,
    >)
        ensures
            match r {
                Ok(Some(p)) => unit_of(
                    manifest@,
                    text_of(*own_changelog),
                    text_of(self.version),
                    text_of(self.changelog),
                ) == Ok::<Option<PackageView>, ScanError>(Some(p@)),
                Ok(None) => unit_of(
                    manifest@,
                    text_of(*own_changelog),
                    text_of(self.version),
                    text_of(self.changelog),
                ) == Ok::<Option<PackageView>, ScanError>(None),
                Err(e) => unit_of(
                    manifest@,
                    text_of(*own_changelog),
                    text_of(self.version),
                    text_of(self.changelog),
                ) == Err::<Option<PackageView>, ScanError>(e),
            },
    {
        if !contains(&to_chars(manifest), &to_chars("[package]")) {
            return Ok(None);
        }
        match read_field(manifest, "publish")? {
            Some(Value::Bool(false)) => {
                return Ok(None);
            },
            _ => {},
        }
        let direct = read_field(manifest, "version")?;
        if direct.is_none() {
            if read_field(manifest, "version.workspace")?.is_none() {
                return Ok(None);
            }
        }
        let name = match read_field(manifest, "name")? {
            Some(Value::Str(v)) => v.to_owned(),
            Some(Value::Bool(_)) => {
                return Err(ScanError::NameNotString);
            },
            None => {
                return Err(ScanError::MissingName);
            },
        };
        let version = match direct {
            Some(Value::Str(v)) => v.to_owned(),
            Some(Value::Bool(_)) => {
                return Err(ScanError::VersionNotString);
            },
            None => match &self.version {
                Some(v) => v.clone(),
                None => {
                    return Err(ScanError::MissingVersion);
                },
            },
        };
        let changelog_path = match own_changelog {
            Some(own) => {
                let shared = match &self.changelog {
                    Some(shared) => own.as_str().to_owned() == shared.as_str().to_owned(),
                    None => false,
                };
                if shared {
                    None
                } else {
                    Some(own.clone())
                }
            },
            None => None,
        };
        Ok(
            Some(
                Package {
                    name,
                    version,
                    changelog_path,
                    release_notes: None,
                    manifest: manifest.to_owned(),
                },
            ),
        )
    }
}


/// The unit that the directory `d` holds, if it holds one.
pub open spec fn directory_unit(ws: Workspace, d: Directory) -> Result<
    Option<PackageView>,
    ScanError,
> {
    match d.manifest {
        Some(m) => unit_of(m@, text_of(d.changelog), text_of(ws.version), text_of(ws.changelog)),
        None => Ok(None),
    }
}

/// The units of the first `upto` directories, in the order of the
/// directories, or the first failure among them.
pub open spec fn scanned(ws: Workspace, dirs: Seq<Directory>, upto: int) -> Result<
    Seq<PackageView>,
    ScanFailure,
>
    decreases upto,
{
    if upto <= 0 {
        Ok(Seq::empty())
    } else {
        match scanned(ws, dirs, upto - 1) {
            Err(f) => Err(f),
            Ok(units) => match directory_unit(ws, dirs[upto - 1]) {
                Err(e) => Err(ScanFailure { directory: (upto - 1) as usize, error: e }),
                Ok(None) => Ok(units),
                Ok(Some(unit)) => Ok(units.push(unit)),
            },
        }
    }
}

impl Workspace {
    /// The units of the workspace, in the order in which they can be
    /// published.
    ///
    /// `dirs` are the directories that the walk found, the root first. The
    /// root has to hold a manifest. The first manifest that cannot be read
    /// as it should ends the scan, and so does a cycle among the units.
    pub fn find_packages(&self, dirs: &Vec<Directory>) -> (r: Result<Vec<Package>, ScanFailure>)
        ensures
            dirs@.len() == 0 || dirs@[0].manifest is None ==> r == Err::<Vec<Package>, ScanFailure>(
                ScanFailure { directory: 0, error: ScanError::MissingRootManifest },
            ),
            dirs@.len() > 0 && dirs@[0].manifest is Some ==> match scanned(
                *self,
                dirs@,
                dirs@.len() as int,
            ) {
                Err(f) => r == Err::<Vec<Package>, ScanFailure>(f),
                Ok(units) => match r {
                    Ok(out) => {
                        &&& !has_dependency_cycle(units)
                        &&& views(out@) == publish_sequence(units)
                        &&& views(out@).to_multiset() == units.to_multiset()
                        &&& forall|a: int, b: int|
                            0 <= a < out@.len() && 0 <= b < out@.len() && needs(
                                #[trigger] out@[a]@,
                                #[trigger] out@[b]@,
                            ) ==> b < a
                    },
                    Err(f) => has_dependency_cycle(units) && f == (ScanFailure {
                        directory: 0,
                        error: ScanError::DependencyCycle,
                    }),
                },
            },
    {
        if dirs.len() == 0 || dirs[0].manifest.is_none() {
            return Err(ScanFailure { directory: 0, error: ScanError::MissingRootManifest });
        }
        let mut found: Vec<Package> = Vec::new();
        let mut i: usize = 0;
        assert(views(found@) =~= Seq::<PackageView>::empty());
        while i < dirs.len()
            invariant
                0 <= i <= dirs.len(),
                dirs@.len() > 0 && dirs@[0].manifest is Some,
                scanned(*self, dirs@, i as int) == Ok::<Seq<PackageView>, ScanFailure>(
                    views(found@),
                ),
            decreases dirs.len() - i,
        {
            let ghost before = views(found@);
            match &dirs[i].manifest {
                Some(manifest) => {
                    match self.package_in(manifest.as_str(), &dirs[i].changelog) {
                        Ok(Some(package)) => {
                            found.push(package);
                            assert(views(found@) =~= before.push(package@));
                        },
                        Ok(None) => {},
                        Err(error) => {
                            proof {
                                lemma_failure_stays(*self, dirs@, i + 1, dirs@.len() as int);
                            }
                            return Err(ScanFailure { directory: i, error });
                        },
                    }
                },
                None => {},
            }
            i += 1;
        }
        match sort_packages(found) {
            Ok(out) => Ok(out),
            Err(_) => Err(ScanFailure { directory: 0, error: ScanError::DependencyCycle }),
        }
    }
}

/// A scan that has failed stays failed, with the same failure, however
/// many directories follow.
proof fn lemma_failure_stays(ws: Workspace, dirs: Seq<Directory>, at: int, upto: int)
    requires
        at <= upto,
        scanned(ws, dirs, at) is Err,
    ensures
        scanned(ws, dirs, upto) == scanned(ws, dirs, at),
    decreases upto - at,
{
    if at < upto {
        lemma_failure_stays(ws, dirs, at, upto - 1);
    }
}

} // verus!
