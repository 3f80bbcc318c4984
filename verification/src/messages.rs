//! What is said of errors.
use vstd::prelude::*;

use crate::affected::AffectedError;
use crate::builder::BuildError;
use crate::changed::SourceGlobError;
use crate::globs;
use crate::reader::ReaderError;
use crate::text;

verus! {

/// The text that `{:?}` prints for a string: in double quotes, with escapes.
pub uninterp spec fn debug_text(s: Seq<char>) -> Seq<char>;

/// `format!("{:?}")` of std on a string. Its text depends on the string alone.
#[verifier::external_body]
fn quoted(s: &str) -> (r: String)
    ensures
        r@ == debug_text(s@),
{
    format!("{:?}", s)
}

/// `a`, `b` and `c`, one after the other.
fn join3(a: &str, b: &str, c: &str) -> (r: String)
    ensures
        r@ == a@ + b@ + c@,
{
    let start = text::join_text(a, b);
    text::join_text(start.as_str(), c)
}

/// Five texts, one after the other.
fn join5(a: &str, b: &str, c: &str, d: &str, e: &str) -> (r: String)
    ensures
        r@ == a@ + b@ + c@ + d@ + e@,
{
    let start = join3(a, b, c);
    join3(start.as_str(), d, e)
}

/// What is said of unusable source globs. Of patterns that cannot be compiled
/// into one set, `globset` says why.
pub open spec fn glob_message(e: SourceGlobError) -> Seq<char> {
    match e {
        SourceGlobError::InvalidPattern { project, pattern, cause: _ } => "project '"@ + project@
            + "' has invalid source glob '"@ + pattern@ + "'"@,
        SourceGlobError::InvalidSet { project: _, cause } => globs::error_text(cause),
    }
}

impl SourceGlobError {
    /// What is said of the error.
    pub fn message(&self) -> (r: String)
        ensures
            r@ == glob_message(*self),
    {
        match self {
            SourceGlobError::InvalidPattern { project, pattern, cause: _ } => join5(
                "project '",
                project.as_str(),
                "' has invalid source glob '",
                pattern.as_str(),
                "'",
            ),
            SourceGlobError::InvalidSet { project: _, cause } => globs::describe(cause),
        }
    }
}

/// What is said of a failed build.
pub open spec fn build_message(e: BuildError) -> Seq<char> {
    match e {
        BuildError::Projects { reader, cause: _ } => "project reader '"@ + reader@ + "'"@,
        BuildError::Edges { reader, cause: _ } => "project reader '"@ + reader@ + "' edges"@,
        BuildError::TooManyProjects => "the project graph has too many projects"@,
        BuildError::TooManyEdges => "the project graph has too many edges"@,
    }
}

impl BuildError {
    /// What is said of the error.
    pub fn message(&self) -> (r: String)
        ensures
            r@ == build_message(*self),
    {
        match self {
            BuildError::Projects { reader, cause: _ } => join3(
                "project reader '",
                reader.as_str(),
                "'",
            ),
            BuildError::Edges { reader, cause: _ } => join3(
                "project reader '",
                reader.as_str(),
                "' edges",
            ),
            BuildError::TooManyProjects => "the project graph has too many projects".to_owned(),
            BuildError::TooManyEdges => "the project graph has too many edges".to_owned(),
        }
    }
}

/// What is said where the affected projects cannot be listed.
pub open spec fn affected_message(e: AffectedError) -> Seq<char> {
    match e {
        AffectedError::FlagLike { flag, value } => flag@ + " value "@ + debug_text(value@)
            + " starts with '-'; refusing to forward to git"@,
        AffectedError::NoMonorepo =>
            "no monorepo found — set `experimental_monorepo_root = true` in your root mise.toml"@,
        AffectedError::NoDefaultBase =>
            "could not determine default base ref (tried 'main' and 'master'); pass --base explicitly"@,
        AffectedError::NotARepository { root } => "monorepo root "@ + root@
            + " is not a git repository — pass --files explicitly"@,
        AffectedError::NoHead { root, head } => root@ + " has no commit named '"@ + head@
            + "' — make an initial commit or pass --files"@,
        AffectedError::NoBase { root, base } => root@ + " has no commit or branch named '"@ + base@
            + "' — pass --base explicitly or run `git fetch`"@,
        AffectedError::NoCommonAncestor { base, head } => "no common ancestor between '"@ + base@
            + "' and '"@ + head@
            + "' (orphan branches or unrelated histories)\npass --base/--head to commits reachable from both, or use --files"@,
        AffectedError::NoChanges { base, head, cause: _ } => "could not compute changed files for "@
            + base@ + "..."@ + head@
            + " (if this is a shallow clone, run `git fetch --unshallow` or pass --files)"@,
        AffectedError::Globs(e) => glob_message(e),
        AffectedError::NoTasks { cause: _ } => "could not load tasks for --target filter"@,
        AffectedError::OutOfTurn => "an answer came that was not asked for"@,
    }
}

impl AffectedError {
    /// What is said of the error.
    pub fn message(&self) -> (r: String)
        ensures
            r@ == affected_message(*self),
    {
        match self {
            AffectedError::FlagLike { flag, value } => {
                let start = join3(flag.as_str(), " value ", quoted(value.as_str()).as_str());
                text::join_text(start.as_str(), " starts with '-'; refusing to forward to git")
            },
            AffectedError::NoMonorepo =>
                "no monorepo found — set `experimental_monorepo_root = true` in your root mise.toml".to_owned(),
            AffectedError::NoDefaultBase =>
                "could not determine default base ref (tried 'main' and 'master'); pass --base explicitly".to_owned(),
            AffectedError::NotARepository { root } => join3(
                "monorepo root ",
                root.as_str(),
                " is not a git repository — pass --files explicitly",
            ),
            AffectedError::NoHead { root, head } => {
                let start = join3(root.as_str(), " has no commit named '", head.as_str());
                text::join_text(
                    start.as_str(),
                    "' — make an initial commit or pass --files",
                )
            },
            AffectedError::NoBase { root, base } => {
                let start = join3(
                    root.as_str(),
                    " has no commit or branch named '",
                    base.as_str(),
                );
                text::join_text(
                    start.as_str(),
                    "' — pass --base explicitly or run `git fetch`",
                )
            },
            AffectedError::NoCommonAncestor { base, head } => join5(
                "no common ancestor between '",
                base.as_str(),
                "' and '",
                head.as_str(),
                "' (orphan branches or unrelated histories)\npass --base/--head to commits reachable from both, or use --files",
            ),
            AffectedError::NoChanges { base, head, cause: _ } => join5(
                "could not compute changed files for ",
                base.as_str(),
                "...",
                head.as_str(),
                " (if this is a shallow clone, run `git fetch --unshallow` or pass --files)",
            ),
            AffectedError::Globs(e) => e.message(),
            AffectedError::NoTasks { cause: _ } => "could not load tasks for --target filter".to_owned(),
            AffectedError::OutOfTurn => "an answer came that was not asked for".to_owned(),
        }
    }
}

/// What is said of a failed reader or of an invalid pattern names the reader, or
/// the project and the pattern, whatever they are called.
pub proof fn law_readers_and_patterns_named(
    reader: String,
    cause: ReaderError,
    project: String,
    pattern: String,
    refusal: globset::Error,
)
    ensures
        build_message(BuildError::Projects { reader, cause }) == "project reader '"@ + reader@
            + "'"@,
        build_message(BuildError::Edges { reader, cause }) == "project reader '"@ + reader@
            + "' edges"@,
        glob_message(SourceGlobError::InvalidPattern { project, pattern, cause: refusal })
            == "project '"@ + project@ + "' has invalid source glob '"@ + pattern@ + "'"@,
        glob_message(SourceGlobError::InvalidSet { project, cause: refusal })
            == globs::error_text(refusal),
{
}

/// What is said of refs names the flag, the refs and the monorepo root, whatever
/// they are called.
pub proof fn law_refs_named(
    flag: String,
    value: String,
    root: String,
    base: String,
    head: String,
    cause: String,
)
    ensures
        affected_message(AffectedError::FlagLike { flag, value }) == flag@ + " value "@
            + debug_text(value@) + " starts with '-'; refusing to forward to git"@,
        affected_message(AffectedError::NotARepository { root }) == "monorepo root "@ + root@
            + " is not a git repository — pass --files explicitly"@,
        affected_message(AffectedError::NoHead { root, head }) == root@ + " has no commit named '"@
            + head@ + "' — make an initial commit or pass --files"@,
        affected_message(AffectedError::NoBase { root, base }) == root@
            + " has no commit or branch named '"@ + base@
            + "' — pass --base explicitly or run `git fetch`"@,
        affected_message(AffectedError::NoCommonAncestor { base, head })
            == "no common ancestor between '"@ + base@ + "' and '"@ + head@
            + "' (orphan branches or unrelated histories)\npass --base/--head to commits reachable from both, or use --files"@,
        affected_message(AffectedError::NoChanges { base, head, cause })
            == "could not compute changed files for "@ + base@ + "..."@ + head@
            + " (if this is a shallow clone, run `git fetch --unshallow` or pass --files)"@,
{
}

} // verus!
