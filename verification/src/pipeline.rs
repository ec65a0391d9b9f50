//! The decisions of a release run that lie between its commands: which
//! commands build and test the workspace, whether the repository is as it
//! was found, and whether every unit says what the registry asks for.

use vstd::prelude::*;
use vstd::string::*;
use crate::package::Package;
use crate::text::{range_eq, split_words, to_chars, trim, trim_range, words, CharClass};
use crate::toml::{lookup, Toml, TomlError};

verus! {

/// A stage of building and testing.
#[derive(Clone, Copy, Debug, PartialEq, Eq, Structural)]
pub enum Stage {
    Check,
    Build,
    BuildDocs,
    Test,
}

/// A command to run in a stage.
#[derive(Debug)]
pub struct Step {
    pub stage: Stage,
    pub command: String,
    /// Whether the command runs with raised rights.
    pub sudo: bool,
}

/// A step as the specifications see it.
pub struct StepView {
    pub stage: Stage,
    pub command: Seq<char>,
    pub sudo: bool,
}

impl View for Step {
    type V = StepView;

    open spec fn view(&self) -> StepView {
        StepView { stage: self.stage, command: self.command@, sudo: self.sudo }
    }
}

/// The steps as the specifications see them.
pub open spec fn step_views(steps: Seq<Step>) -> Seq<StepView> {
    Seq::new(steps.len(), |i: int| steps[i]@)
}

/// The steps that build and test the workspace.
///
/// With `check_only` the workspace is checked and not tested. The
/// documentation is built unless `skip_docs` says otherwise. Only the tests
/// themselves run with raised rights, where `sudo` asks for them.
pub open spec fn test_steps(
    check_only: bool,
    skip_docs: bool,
    sudo: bool,
    args: Seq<char>,
    doc_flags: Seq<char>,
) -> Seq<StepView> {
    let first = if check_only {
        StepView { stage: Stage::Check, command: "cargo check --workspace "@ + args, sudo: false }
    } else {
        StepView {
            stage: Stage::Build,
            command: "cargo test --workspace --no-run "@ + args,
            sudo: false,
        }
    };
    let docs = if skip_docs {
        Seq::empty()
    } else {
        seq![
            StepView {
                stage: Stage::BuildDocs,
                command: "cargo doc --workspace "@ + doc_flags,
                sudo: false,
            },
        ]
    };
    let test = if check_only {
        Seq::empty()
    } else {
        seq![StepView { stage: Stage::Test, command: "cargo test --workspace "@ + args, sudo }]
    };
    seq![first] + docs + test
}

fn command(head: &str, tail: &str) -> (r: String)
    ensures
        r@ == head@ + tail@,
{
    let mut r = String::new();
    r.append(head);
    r.append(tail);
    assert(r@ =~= head@ + tail@);
    r
}

/// Plans the steps that build and test the workspace.
pub fn plan_test(check_only: bool, skip_docs: bool, sudo: bool, args: &str, doc_flags: &str) -> (r:
    Vec<Step>)
    ensures
        step_views(r@) == test_steps(check_only, skip_docs, sudo, args@, doc_flags@),
{
    let mut steps: Vec<Step> = Vec::new();
    if check_only {
        steps.push(
            Step {
                stage: Stage::Check,
                command: command("cargo check --workspace ", args),
                sudo: false,
            },
        );
    } else {
        steps.push(
            Step {
                stage: Stage::Build,
                command: command("cargo test --workspace --no-run ", args),
                sudo: false,
            },
        );
    }
    if !skip_docs {
        steps.push(
            Step {
                stage: Stage::BuildDocs,
                command: command("cargo doc --workspace ", doc_flags),
                sudo: false,
            },
        );
    }
    if !check_only {
        steps.push(
            Step { stage: Stage::Test, command: command("cargo test --workspace ", args), sudo },
        );
    }
    assert(step_views(steps@) =~= test_steps(check_only, skip_docs, sudo, args@, doc_flags@));
    steps
}

/// The command that publishes the unit `name` with the registry token
/// `token`. The unit was tested before, so it is not verified again.
pub fn publish_command(name: &str, token: &str) -> (r: String)
    ensures
        r@ == "cargo publish --no-verify -p "@ + name@ + " --token "@ + token@,
{
    let mut r = command("cargo publish --no-verify -p ", name);
    r.append(" --token ");
    r.append(token);
    r
}

/// The command that sets the tag `tag`.
pub fn tag_command(tag: &str) -> (r: String)
    ensures
        r@ == "git tag "@ + tag@,
{
    command("git tag ", tag)
}

/// The command that creates a release on the tag `tag`, with the notes it
/// is given on its input.
pub fn release_command(tag: &str) -> (r: String)
    ensures
        r@ == "gh release create "@ + tag@ + " --notes-file -"@,
{
    let mut r = command("gh release create ", tag);
    r.append(" --notes-file -");
    r
}

/// The words that are more than white space.
pub open spec fn solid() -> spec_fn(Seq<char>) -> bool {
    |word: Seq<char>| trim(word).len() > 0
}

/// The program of a command line and its arguments: the words of the line
/// between ASCII white space, but for those that are nothing but white
/// space of another kind. Nothing is quoted or escaped.
pub fn command_words<'a>(line: &'a str) -> (r: Vec<&'a str>)
    ensures
        crate::text::str_views(r@) == words(line@, CharClass::AsciiWhitespace).filter(solid()),
{
    let all = split_words(line, CharClass::AsciiWhitespace);
    let ghost texts = crate::text::str_views(all@);
    let mut out: Vec<&'a str> = Vec::new();
    let mut i: usize = 0;
    proof {
        reveal(Seq::filter);
        assert(texts.take(0).filter(solid()) =~= crate::text::str_views(out@));
    }
    while i < all.len()
        invariant
            texts == crate::text::str_views(all@),
            texts == words(line@, CharClass::AsciiWhitespace),
            0 <= i <= all.len(),
            crate::text::str_views(out@) == texts.take(i as int).filter(solid()),
        decreases all.len() - i,
    {
        let word = to_chars(all[i]);
        assert(word@.subrange(0, word@.len() as int) =~= word@);
        let (a, b) = trim_range(&word, 0, word.len());
        proof {
            reveal(Seq::filter);
            assert(texts.take(i + 1).drop_last() =~= texts.take(i as int));
            assert(texts.take(i + 1).last() == all@[i as int]@);
        }
        if a < b {
            let ghost before = crate::text::str_views(out@);
            out.push(all[i]);
            assert(crate::text::str_views(out@) =~= before.push(all@[i as int]@));
        }
        i += 1;
    }
    assert(texts.take(all@.len() as int) =~= texts);
    out
}

/// What is wrong with the repository after the tests have run.
#[derive(Clone, Copy, Debug, PartialEq, Eq, Structural)]
pub enum RepoError {
    /// Files were changed, added or staged.
    Dirty,
    /// The commit that is checked out is not the one that the run began on.
    WrongCommit,
}

/// Whether the repository is as the run found it: `status` is the list of
/// changed files and has to be blank, `head` names the commit that is
/// checked out and has to be `expected`. Changed files are reported first.
pub fn check_repository(status: &str, head: &str, expected: &str) -> (r: Result<(), RepoError>)
    ensures
        r == if trim(status@).len() > 0 {
            Err::<(), RepoError>(RepoError::Dirty)
        } else if trim(head@) != expected@ {
            Err::<(), RepoError>(RepoError::WrongCommit)
        } else {
            Ok::<(), RepoError>(())
        },
{
    let files = to_chars(status);
    assert(files@.subrange(0, files@.len() as int) =~= files@);
    let (a, b) = trim_range(&files, 0, files.len());
    if a < b {
        return Err(RepoError::Dirty);
    }
    let commit = to_chars(head);
    assert(commit@.subrange(0, commit@.len() as int) =~= commit@);
    let (a, b) = trim_range(&commit, 0, commit.len());
    if range_eq(&commit, a, b, &to_chars(expected)) {
        Ok(())
    } else {
        Err(RepoError::WrongCommit)
    }
}

/// What a unit's manifest lacks, or why it could not be read.
#[derive(Clone, Copy, Debug, PartialEq, Eq, Structural)]
pub enum MetadataError {
    MissingDescription,
    MissingLicense,
    UnclosedString,
}

/// A unit whose manifest does not pass, and why: the unit by its place in
/// the list.
#[derive(Clone, Copy, Debug, PartialEq, Eq, Structural)]
pub struct MetadataFailure {
    pub unit: usize,
    pub error: MetadataError,
}

/// Whether `manifest` binds the field `name`, or `name` with `.workspace`
/// behind it, to a scalar.
pub open spec fn declares(manifest: Seq<char>, name: Seq<char>) -> Result<bool, MetadataError> {
    match lookup(manifest, name) {
        Ok(_) => Ok(true),
        Err(TomlError::UnclosedString) => Err(MetadataError::UnclosedString),
        Err(TomlError::NotFound) => match lookup(manifest, name + ".workspace"@) {
            Ok(_) => Ok(true),
            Err(TomlError::UnclosedString) => Err(MetadataError::UnclosedString),
            Err(TomlError::NotFound) => Ok(false),
        },
    }
}

/// What the manifest `manifest` of a unit lacks: it has to declare a
/// description and a license. The description is looked at first.
pub open spec fn metadata(manifest: Seq<char>) -> Result<(), MetadataError> {
    match declares(manifest, "description"@) {
        Err(e) => Err(e),
        Ok(false) => Err(MetadataError::MissingDescription),
        Ok(true) => match declares(manifest, "license"@) {
            Err(e) => Err(e),
            Ok(false) => Err(MetadataError::MissingLicense),
            Ok(true) => Ok(()),
        },
    }
}

fn check_declares(manifest: &str, name: &str) -> (r: Result<bool, MetadataError>)
    ensures
        r == declares(manifest@, name@),
{
    match Toml(manifest).get_field(name) {
        Ok(_) => Ok(true),
        Err(TomlError::UnclosedString) => Err(MetadataError::UnclosedString),
        Err(TomlError::NotFound) => {
            let inherited = command(name, ".workspace");
            match Toml(manifest).get_field(inherited.as_str()) {
                Ok(_) => Ok(true),
                Err(TomlError::UnclosedString) => Err(MetadataError::UnclosedString),
                Err(TomlError::NotFound) => Ok(false),
            }
        },
    }
}

/// Checks the manifest of a unit for what the registry asks of it.
pub fn check_metadata(manifest: &str) -> (r: Result<(), MetadataError>)
    ensures
        r == metadata(manifest@),
{
    if !check_declares(manifest, "description")? {
        return Err(MetadataError::MissingDescription);
    }
    if !check_declares(manifest, "license")? {
        return Err(MetadataError::MissingLicense);
    }
    Ok(())
}

/// Checks the manifests of all units, in order, and reports the first
/// that does not pass.
pub fn check_manifests(packages: &Vec<Package>) -> (r: Result<(), MetadataFailure>)
    ensures
        match r {
            Ok(_) => forall|i: int|
                0 <= i < packages@.len() ==> metadata((#[trigger] packages@[i]).manifest@) is Ok,
            Err(f) => {
                &&& f.unit < packages@.len()
                &&& metadata(packages@[f.unit as int].manifest@) == Err::<(), MetadataError>(
                    f.error,
                )
                &&& forall|i: int|
                    0 <= i < f.unit ==> metadata((#[trigger] packages@[i]).manifest@) is Ok
            },
        },
{
    let mut i: usize = 0;
    while i < packages.len()
        invariant
            0 <= i <= packages.len(),
            forall|k: int| 0 <= k < i ==> metadata((#[trigger] packages@[k]).manifest@) is Ok,
        decreases packages.len() - i,
    {
        match check_metadata(packages[i].manifest.as_str()) {
            Ok(_) => {},
            Err(error) => {
                return Err(MetadataFailure { unit: i, error });
            },
        }
        i += 1;
    }
    Ok(())
}

/// The tags that a listing of tags holds: its words.
pub fn parse_tags(listing: &str) -> (r: Vec<String>)
    ensures
        crate::publish::tag_texts(r@) == words(listing@, CharClass::Whitespace),
{
    let parts = split_words(listing, CharClass::Whitespace);
    let mut tags: Vec<String> = Vec::new();
    let mut i: usize = 0;
    while i < parts.len()
        invariant
            0 <= i <= parts.len(),
            tags@.len() == i,
            forall|k: int| 0 <= k < i ==> (#[trigger] tags@[k])@ == parts@[k]@,
        decreases parts.len() - i,
    {
        tags.push(parts[i].to_owned());
        i += 1;
    }
    assert(crate::publish::tag_texts(tags@) =~= crate::text::str_views(parts@));
    tags
}

} // verus!
