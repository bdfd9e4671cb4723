//! The glob matcher that the file filter is built on.
//!
//! Compiling and matching globs is the `globset` crate's work. Nothing in this
//! module is proved: each item states what the filter relies on, and the crate
//! is believed to behave so.

use globset::{Error, Glob, GlobSet, GlobSetBuilder};
use vstd::prelude::*;

verus! {

/// `globset::Glob`: one parsed glob. Opaque here.
#[verifier::external_type_specification]
#[verifier::external_body]
pub struct ExGlob(Glob);

/// `globset::GlobSet`: a compiled list of globs. Opaque here.
#[verifier::external_type_specification]
#[verifier::external_body]
pub struct ExGlobSet(GlobSet);

/// `globset::GlobSetBuilder`: the list of globs a set is compiled from. Opaque here.
#[verifier::external_type_specification]
#[verifier::external_body]
pub struct ExGlobSetBuilder(GlobSetBuilder);

/// `globset::Error`: why a glob was refused. Opaque here.
#[verifier::external_type_specification]
#[verifier::external_body]
pub struct ExGlobError(Error);

/// Whether `Glob::new` accepts `text`, with the options it uses by default
/// on the platform the crate is built for.
pub uninterp spec fn glob_is_valid(text: Seq<char>) -> bool;

/// The text a `Glob` was parsed from (what `Glob::glob` hands back).
pub uninterp spec fn glob_text(glob: Glob) -> Seq<char>;

/// The texts of the globs added to a builder so far, in the order of addition.
pub uninterp spec fn builder_globs(builder: GlobSetBuilder) -> Seq<Seq<char>>;

/// The texts of the globs a set was compiled from, by sequence number.
pub uninterp spec fn set_globs(set: GlobSet) -> Seq<Seq<char>>;

/// Whether `GlobSetBuilder::build` succeeds on a builder holding these globs.
pub uninterp spec fn set_compiles(globs: Seq<Seq<char>>) -> bool;

/// Whether `GlobSet::matches` reports a glob with this text for this path.
pub uninterp spec fn glob_matches(glob: Seq<char>, path: Seq<char>) -> bool;

/// `Glob::new`. Claims: the call succeeds exactly on the texts that
/// `glob_is_valid` names, and the glob it returns remembers its text.
#[verifier::external_body]
pub(crate) fn parse_glob(text: &str) -> (r: Result<Glob, Error>)
    ensures
        r is Ok <==> glob_is_valid(text@),
        r matches Ok(glob) ==> glob_text(glob) == text@,
{
    Glob::new(text)
}

/// `GlobSetBuilder::new`. Claims: a new builder holds no glob.
#[verifier::external_body]
pub(crate) fn new_builder() -> (builder: GlobSetBuilder)
    ensures
        builder_globs(builder) == Seq::<Seq<char>>::empty(),
{
    GlobSetBuilder::new()
}

/// `GlobSetBuilder::add`. Claims: the glob is appended after those already held.
#[verifier::external_body]
pub(crate) fn add_glob(builder: &mut GlobSetBuilder, glob: Glob)
    ensures
        builder_globs(*final(builder)) == builder_globs(*old(builder)).push(glob_text(glob)),
{
    builder.add(glob);
}

/// `GlobSetBuilder::build`. Claims: whether the call succeeds depends on the
/// globs held alone, and the set it returns numbers them in the builder's order.
#[verifier::external_body]
pub(crate) fn build_set(builder: &GlobSetBuilder) -> (r: Result<GlobSet, Error>)
    ensures
        r is Ok <==> set_compiles(builder_globs(*builder)),
        r matches Ok(set) ==> set_globs(set) == builder_globs(*builder),
{
    builder.build()
}

/// `GlobSet::matches`. Claims: the result lists, in ascending order and each
/// once, the sequence numbers of the globs that match `path`; whether a glob
/// matches depends on its text and the path alone.
#[verifier::external_body]
pub(crate) fn matching_globs(set: &GlobSet, path: &str) -> (hits: Vec<usize>)
    ensures
        forall|i: int, j: int| 0 <= i < j < hits@.len() ==> hits@[i] < hits@[j],
        forall|k: int| 0 <= k < hits@.len() ==> hits@[k] < set_globs(*set).len(),
        forall|g: int|
            0 <= g < set_globs(*set).len() ==> (hits@.contains(g as usize) <==> glob_matches(
                #[trigger] set_globs(*set)[g],
                path@,
            )),
{
    set.matches(path)
}

} // verus!
