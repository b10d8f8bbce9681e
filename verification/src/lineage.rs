//! The trajectories of files across renames.
//!
//! A rename joins two paths into one trajectory, which is called by the name
//! that the later side has. History is read newest first, so a trajectory ends
//! up under the name that the file has today.

use vstd::prelude::*;

verus! {

/// `entropyx_git::LineageResolver`: paths joined into trajectories.
#[verifier::external_type_specification]
#[verifier::external_body]
pub struct ExLineageResolver(entropyx_git::LineageResolver);

/// The name of the trajectory of every path that a resolver has seen.
pub uninterp spec fn trajectories(l: entropyx_git::LineageResolver) -> Map<Seq<char>, Seq<char>>;

/// The trajectory of a path; one that was never seen is its own.
pub open spec fn canonical_in(m: Map<Seq<char>, Seq<char>>, p: Seq<char>) -> Seq<char> {
    if m.contains_key(p) {
        m[p]
    } else {
        p
    }
}

/// The trajectories after a rename: all paths that shared one with `from` now
/// share that of `to`.
pub open spec fn joined(
    m: Map<Seq<char>, Seq<char>>,
    from: Seq<char>,
    to: Seq<char>,
) -> Map<Seq<char>, Seq<char>> {
    Map::new(
        |p: Seq<char>| m.contains_key(p) || p == from || p == to,
        |p: Seq<char>|
            if canonical_in(m, p) == canonical_in(m, from) {
                canonical_in(m, to)
            } else {
                canonical_in(m, p)
            },
    )
}

/// The two sides of a rename share a trajectory.
pub proof fn rename_joins(m: Map<Seq<char>, Seq<char>>, from: Seq<char>, to: Seq<char>)
    ensures
        canonical_in(joined(m, from, to), from) == canonical_in(m, to),
        canonical_in(joined(m, from, to), to) == canonical_in(m, to),
{
}

/// Paths that shared a trajectory before a rename still do.
pub proof fn rename_splits_nothing(
    m: Map<Seq<char>, Seq<char>>,
    from: Seq<char>,
    to: Seq<char>,
    p: Seq<char>,
    q: Seq<char>,
)
    requires
        m.contains_key(p),
        m.contains_key(q),
        m[p] == m[q],
    ensures
        joined(m, from, to)[p] == joined(m, from, to)[q],
{
}

/// `entropyx_git::LineageResolver::new` has seen no path.
#[verifier::external_body]
pub(crate) fn new_lineage() -> (r: entropyx_git::LineageResolver)
    ensures
        forall|p: Seq<char>| !trajectories(r).contains_key(p),
{
    entropyx_git::LineageResolver::new()
}

/// `entropyx_git::LineageResolver::union` takes note of both paths and gives
/// the trajectory of the first the name of the second's.
#[verifier::external_body]
pub(crate) fn join(l: &mut entropyx_git::LineageResolver, from: &str, to: &str)
    ensures
        trajectories(*final(l)) == joined(trajectories(*old(l)), from@, to@),
{
    l.union(from, to)
}

/// `entropyx_git::LineageResolver::canonical` gives the name of the path's
/// trajectory, and the path itself if it was never seen. It may shorten the
/// way to the name for later calls, but changes no name.
#[verifier::external_body]
pub(crate) fn canonical(l: &mut entropyx_git::LineageResolver, path: &str) -> (r: String)
    ensures
        r@ == canonical_in(trajectories(*old(l)), path@),
        trajectories(*final(l)) == trajectories(*old(l)),
{
    l.canonical(path)
}

} // verus!
