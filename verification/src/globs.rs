//! Sets of source globs, compiled and matched by `globset`.
use vstd::prelude::*;

verus! {

/// `globset::GlobSetBuilder`, which gathers globs.
#[verifier::external_type_specification]
#[verifier::external_body]
pub struct ExGlobSetBuilder(globset::GlobSetBuilder);

/// `globset::GlobSet`, a compiled set of globs.
#[verifier::external_type_specification]
#[verifier::external_body]
pub struct ExGlobSet(globset::GlobSet);

/// `globset::Error`, why a glob or a set of globs was refused.
#[verifier::external_type_specification]
#[verifier::external_body]
pub struct ExGlobError(globset::Error);

/// The patterns that a builder has gathered, in the order in which they came.
pub uninterp spec fn builder_patterns(builder: globset::GlobSetBuilder) -> Seq<Seq<char>>;

/// The patterns of a compiled set, in the order in which they came.
pub uninterp spec fn set_patterns(set: globset::GlobSet) -> Seq<Seq<char>>;

/// What `globset` says against the pattern, where it does not accept it as a
/// glob.
pub uninterp spec fn glob_refusal(pattern: Seq<char>) -> Option<Seq<char>>;

/// `globset` can compile the patterns into one set.
pub uninterp spec fn set_compiles(patterns: Seq<Seq<char>>) -> bool;

/// The glob with the given pattern matches the path.
pub uninterp spec fn glob_matches(pattern: Seq<char>, path: Seq<char>) -> bool;

/// What is said of an error.
pub uninterp spec fn error_text(error: globset::Error) -> Seq<char>;

/// One of the patterns matches the path.
pub open spec fn any_matches(patterns: Seq<Seq<char>>, path: Seq<char>) -> bool {
    patterns.any(|pattern: Seq<char>| glob_matches(pattern, path))
}

/// `globset::GlobSetBuilder::new`: a builder without patterns.
#[verifier::external_body]
pub(crate) fn new_builder() -> (r: globset::GlobSetBuilder)
    ensures
        builder_patterns(r) == Seq::<Seq<char>>::empty(),
{
    globset::GlobSetBuilder::new()
}

/// `globset::GlobSetBuilder::add` of the glob that `globset::Glob::new` makes of
/// the pattern: the pattern is added where it is accepted. Whether it is, and
/// what the error says, depends on nothing but its text.
#[verifier::external_body]
pub(crate) fn add_pattern(builder: &mut globset::GlobSetBuilder, pattern: &str) -> (r: Result<
    (),
    globset::Error,
>)
    ensures
        r is Ok <==> glob_refusal(pattern@) is None,
        r is Err ==> glob_refusal(pattern@) == Some(error_text(r->Err_0)),
        r is Ok ==> builder_patterns(*final(builder)) == builder_patterns(*old(builder)).push(
            pattern@,
        ),
        r is Err ==> builder_patterns(*final(builder)) == builder_patterns(*old(builder)),
{
    let glob = globset::Glob::new(pattern)?;
    builder.add(glob);
    Ok(())
}

/// `globset::GlobSetBuilder::build`: compiles the patterns gathered so far.
/// Whether that succeeds depends on nothing but the patterns. Which of several
/// unfit patterns the error names is left open: `globset` goes through a hash
/// map there.
#[verifier::external_body]
pub(crate) fn build_set(builder: &globset::GlobSetBuilder) -> (r: Result<
    globset::GlobSet,
    globset::Error,
>)
    ensures
        r is Ok <==> set_compiles(builder_patterns(*builder)),
        r is Ok ==> set_patterns(r->Ok_0) == builder_patterns(*builder),
{
    builder.build()
}

/// `globset::GlobSet::is_match`: whether any glob of the set matches the path.
#[verifier::external_body]
pub(crate) fn is_match(set: &globset::GlobSet, path: &str) -> (r: bool)
    ensures
        r == set_patterns(*set).any(|pattern: Seq<char>| glob_matches(pattern, path@)),
{
    set.is_match(path)
}

/// `to_string` of `globset::Error`: what is said of the error, which depends on
/// nothing but the error.
#[verifier::external_body]
pub(crate) fn describe(error: &globset::Error) -> (r: String)
    ensures
        r@ == error_text(*error),
{
    error.to_string()
}

} // verus!
