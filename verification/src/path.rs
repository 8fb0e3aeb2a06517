//! Parents of canonical paths.

use vstd::prelude::*;

verus! {

/// The parent of a path as `std::path::Path::parent` gives it on the platform
/// the library is built for, over the characters of the path; `None` where the
/// path ends in a root or is empty.
pub uninterp spec fn path_parent(path: Seq<char>) -> Option<Seq<char>>;

/// The ancestor of `path` that lies `levels` parents above it (the path itself
/// at level 0), if the chain of parents reaches that far.
pub open spec fn ancestor_at(path: Seq<char>, levels: nat) -> Option<Seq<char>>
    decreases levels,
{
    if levels == 0 {
        Some(path)
    } else {
        match ancestor_at(path, (levels - 1) as nat) {
            Some(below) => path_parent(below),
            None => None,
        }
    }
}

/// Climbing `levels + 1` parents from a path is climbing `levels` parents from
/// its parent.
pub proof fn lemma_ancestor_shift(path: Seq<char>, parent: Seq<char>, levels: nat)
    requires
        path_parent(path) == Some(parent),
    ensures
        ancestor_at(path, levels + 1) == ancestor_at(parent, levels),
    decreases levels,
{
    if levels > 0 {
        lemma_ancestor_shift(path, parent, (levels - 1) as nat);
    } else {
        assert(ancestor_at(path, 0) == Some(path));
    }
}

/// Once the chain of parents has ended it stays ended.
pub proof fn lemma_ancestor_ended(path: Seq<char>, end: nat, levels: nat)
    requires
        ancestor_at(path, end).is_none(),
        end <= levels,
    ensures
        ancestor_at(path, levels).is_none(),
    decreases levels,
{
    if end < levels {
        lemma_ancestor_ended(path, end, (levels - 1) as nat);
    }
}

/// Calls `std::path::Path::parent`. Trusted: the result is the path without
/// its final component, named `path_parent`, and is therefore strictly shorter
/// than the path it was taken from.
#[verifier::external_body]
pub(crate) fn parent_of(path: &String) -> (parent: Option<String>)
    ensures
        match parent {
            Some(p) => path_parent(path@) == Some(p@) && p@.len() < path@.len(),
            None => path_parent(path@).is_none(),
        },
{
    match std::path::Path::new(path.as_str()).parent() {
        Some(p) => Some(p.to_string_lossy().into_owned()),
        None => None,
    }
}

} // verus!
