//! Expansion of a leading `~` in a path to the user's home directory.

use vstd::prelude::*;

verus! {

/// Whether `path` begins with a `~` that stands alone or is followed by a
/// separator.
pub open spec fn has_home_prefix(path: Seq<char>) -> bool {
    path.len() > 0 && path[0] == '~' && (path.len() == 1 || path[1] == '/' || path[1] == '\\')
}

/// Whether `expanded` can be what the expansion makes of `path`: the path
/// itself, or, where the path has a home prefix, some directory in place of
/// the `~`.
pub open spec fn expands_to(path: Seq<char>, expanded: Seq<char>) -> bool {
    expanded == path || (has_home_prefix(path) && path.skip(1).is_suffix_of(expanded))
}

/// Calls `shellexpand::tilde`. A path without a home prefix comes back as it
/// is. In a path with one, the `~` is replaced by the home directory that
/// the environment names; where it names none, the path comes back as it
/// is. Which directory that is, the contract does not say.
#[verifier::external_body]
pub(crate) fn expand_home(path: &str) -> (expanded: String)
    ensures
        expands_to(path@, expanded@),
{
    shellexpand::tilde(path).into_owned()
}

} // verus!
