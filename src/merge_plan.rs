use vstd::prelude::*;
use crate::error::ErrorKind;
use crate::graph::{can_fast_forward, find_merge_base, CommitGraph};
use crate::options::MergeOptions;

verus! {

/// What a merge of `theirs` into `ours` has to do.
#[derive(Debug)]
pub enum MergeStep {
    /// Both sides are the same commit.
    AlreadyUpToDate,
    /// Ours is an ancestor of theirs: move forward to theirs.
    FastForward,
    /// Reconcile the trees against this common ancestor.
    ThreeWay { base: String },
}

/// Decides how to merge `their_commit` into `our_commit`: nothing when they
/// are equal; a fast-forward when ours is an ancestor of theirs (unless
/// `no_ff`); otherwise a three-way merge against their merge base, refused
/// with `InvalidInput` under `ff_only` or when the histories share no commit.
pub fn plan_merge(graph: &CommitGraph, our_commit: &str, their_commit: &str, options: &MergeOptions) -> (r: Result<MergeStep, ErrorKind>)
    requires
        graph.wf(),
    ensures
        our_commit@ == their_commit@ ==> r matches Ok(MergeStep::AlreadyUpToDate),
        our_commit@ != their_commit@ && graph.is_ancestor(our_commit@, their_commit@) && !options.no_ff
            ==> r matches Ok(MergeStep::FastForward),
        our_commit@ != their_commit@ && !graph.is_ancestor(our_commit@, their_commit@) && options.ff_only
            ==> r == Err::<MergeStep, ErrorKind>(ErrorKind::InvalidInput),
        r matches Ok(MergeStep::ThreeWay { base }) ==> graph.is_ancestor(base@, our_commit@) && graph.is_ancestor(base@, their_commit@),
        r matches Ok(MergeStep::ThreeWay { base }) ==> exists|i: int, j: int, b: int|
            graph.node(our_commit@, i) && graph.node(their_commit@, j) && graph.node(base@, b)
            && #[trigger] crate::graph::least_summed(crate::graph::parent_view(graph.parents@), i, j, b),
        r matches Ok(MergeStep::FastForward) ==> graph.is_ancestor(our_commit@, their_commit@),
        r matches Ok(MergeStep::AlreadyUpToDate) ==> our_commit@ == their_commit@,
        our_commit@ != their_commit@ && !(graph.is_ancestor(our_commit@, their_commit@) && !options.no_ff)
            && !(options.ff_only && !graph.is_ancestor(our_commit@, their_commit@))
            && (exists|c: Seq<char>| #[trigger] graph.is_ancestor(c, our_commit@) && graph.is_ancestor(c, their_commit@))
            ==> r matches Ok(MergeStep::ThreeWay { .. }),
        r is Err ==> r == Err::<MergeStep, ErrorKind>(ErrorKind::InvalidInput),
        r is Err && !(our_commit@ != their_commit@ && !graph.is_ancestor(our_commit@, their_commit@) && options.ff_only)
            ==> forall|c: Seq<char>| !(#[trigger] graph.is_ancestor(c, our_commit@) && graph.is_ancestor(c, their_commit@)),
{
    let a = our_commit.to_owned();
    let b = their_commit.to_owned();
    if a == b {
        return Ok(MergeStep::AlreadyUpToDate);
    }
    let can_ff = can_fast_forward(graph, our_commit, their_commit);
    if can_ff && !options.no_ff {
        return Ok(MergeStep::FastForward);
    }
    if options.ff_only && !can_ff {
        return Err(ErrorKind::InvalidInput);
    }
    match find_merge_base(graph, our_commit, their_commit) {
        Some(base) => Ok(MergeStep::ThreeWay { base }),
        None => Err(ErrorKind::InvalidInput),
    }
}

} // verus!
