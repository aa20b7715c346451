//! Decisions of the hunk transplant mutations.
//!
//! Moving a hunk is done as split, rebase and squash inside one transaction:
//! the hunk's patch applied to the source's parent gives a sibling tree; the
//! source loses the patch by a three-way merge, the destination gains it by
//! the inverse merge. Which commit is rewritten first depends on ancestry.
//! The functions here take what the store answered and say what to do next.
use vstd::prelude::*;
use vstd::string::{StrSliceExecFns, StringExecFns};

verus! {

/// A request the user can correct, reported instead of performing a mutation.
#[derive(Clone, Copy, Debug, PartialEq, Eq, Structural)]
pub enum Precondition {
    /// A commit to be rewritten is immutable (one, when copying a hunk).
    ImmutableRevision,
    /// Commits to be rewritten are immutable (when moving a hunk).
    ImmutableRevisions,
    /// The hunk's source has several parents.
    MergeSource,
    /// The destination file holds an unresolved conflict.
    ConflictedDestination,
}

impl Precondition {
    pub open spec fn message_spec(&self) -> Seq<char> {
        match self {
            Precondition::ImmutableRevision => "Revision is immutable"@,
            Precondition::ImmutableRevisions => "Revisions are immutable"@,
            Precondition::MergeSource => "Cannot move hunk from a merge commit"@,
            Precondition::ConflictedDestination => "Cannot restore hunk: destination file has conflicts"@,
        }
    }

    /// The message shown to the user.
    pub fn message(&self) -> (r: &'static str)
        ensures
            r@ == self.message_spec(),
    {
        match self {
            Precondition::ImmutableRevision => "Revision is immutable",
            Precondition::ImmutableRevisions => "Revisions are immutable",
            Precondition::MergeSource => "Cannot move hunk from a merge commit",
            Precondition::ConflictedDestination => "Cannot restore hunk: destination file has conflicts",
        }
    }
}

/// Checks before moving a hunk: neither end may be immutable, and the source
/// must have exactly one parent.
pub fn check_move_hunk(any_immutable: bool, source_parent_count: usize) -> (r: Option<Precondition>)
    ensures
        r == (if any_immutable {
            Some(Precondition::ImmutableRevisions)
        } else if source_parent_count != 1 {
            Some(Precondition::MergeSource)
        } else {
            None::<Precondition>
        }),
{
    if any_immutable {
        Some(Precondition::ImmutableRevisions)
    } else if source_parent_count != 1 {
        Some(Precondition::MergeSource)
    } else {
        None
    }
}

/// Checks before copying a hunk: the destination may be neither immutable
/// nor conflicted at the hunk's path.
pub fn check_copy_hunk(destination_immutable: bool, destination_conflicted: bool) -> (r: Option<Precondition>)
    ensures
        r == (if destination_immutable {
            Some(Precondition::ImmutableRevision)
        } else if destination_conflicted {
            Some(Precondition::ConflictedDestination)
        } else {
            None::<Precondition>
        }),
{
    if destination_immutable {
        Some(Precondition::ImmutableRevision)
    } else if destination_conflicted {
        Some(Precondition::ConflictedDestination)
    } else {
        None
    }
}

/// The description the destination gets: where the source is abandoned, the
/// destination's then the source's description, newline-joined, each
/// standing alone where the other is empty; else the destination's.
pub open spec fn combined_description(source: Seq<char>, destination: Seq<char>, abandon_source: bool) -> Seq<char> {
    if abandon_source {
        if source.len() == 0 {
            destination
        } else if destination.len() == 0 {
            source
        } else {
            destination + "\n"@ + source
        }
    } else {
        destination
    }
}

pub fn combine_messages(source: &str, destination: &str, abandon_source: bool) -> (r: String)
    ensures
        r@ == combined_description(source@, destination@, abandon_source),
{
    if abandon_source {
        if source.unicode_len() == 0 {
            String::from_str(destination)
        } else if destination.unicode_len() == 0 {
            String::from_str(source)
        } else {
            let mut r = String::from_str(destination);
            r.append("\n");
            r.append(source);
            proof {
                reveal_strlit("\n");
            }
            r
        }
    } else {
        String::from_str(destination)
    }
}

/// One action of the move-hunk transaction.
#[derive(Clone, Copy, Debug, PartialEq, Eq, Structural)]
pub enum MoveStep {
    /// Rewrite the destination with the tree that gained the hunk, and give
    /// it the combined description.
    RewriteDestination,
    /// Record the source as abandoned.
    AbandonSource,
    /// Rewrite the source with the tree that lost the hunk.
    RewriteSource,
    /// Rebase all descendants of rewritten commits.
    RebaseDescendants,
    /// Rebase all descendants, keeping the map from old to new commit ids.
    RebaseDescendantsWithMap,
    /// Look up the destination's rebased commit in that map (a hard error
    /// where it is absent) and merge the hunk into its tree anew.
    ReloadDestination,
}

/// The step that handles the source: abandoned where it would be left empty.
pub open spec fn source_step(abandon_source: bool) -> MoveStep {
    if abandon_source {
        MoveStep::AbandonSource
    } else {
        MoveStep::RewriteSource
    }
}

/// The order of the move-hunk transaction. A destination that is an ancestor
/// of the source is rewritten first, so that one rebase carries the source's
/// descendants along; a destination that descends from the source is
/// rewritten only after the rebase has moved it, against its rebased tree;
/// otherwise the source, then the destination, then one rebase.
pub open spec fn move_steps(abandon_source: bool, source_is_ancestor: bool, destination_is_ancestor: bool) -> Seq<MoveStep> {
    if destination_is_ancestor {
        seq![MoveStep::RewriteDestination, source_step(abandon_source), MoveStep::RebaseDescendants]
    } else if source_is_ancestor {
        seq![
            source_step(abandon_source),
            MoveStep::RebaseDescendantsWithMap,
            MoveStep::ReloadDestination,
            MoveStep::RewriteDestination,
            MoveStep::RebaseDescendants,
        ]
    } else {
        seq![source_step(abandon_source), MoveStep::RewriteDestination, MoveStep::RebaseDescendants]
    }
}

/// Plans the move-hunk transaction from whether the source would be left
/// with its parent's tree (and is then abandoned) and from the ancestry of
/// source and destination.
pub fn plan_move_hunk(abandon_source: bool, source_is_ancestor: bool, destination_is_ancestor: bool) -> (r: Vec<MoveStep>)
    ensures
        r@ == move_steps(abandon_source, source_is_ancestor, destination_is_ancestor),
{
    let source = if abandon_source {
        MoveStep::AbandonSource
    } else {
        MoveStep::RewriteSource
    };
    let mut steps: Vec<MoveStep> = Vec::new();
    if destination_is_ancestor {
        steps.push(MoveStep::RewriteDestination);
        steps.push(source);
        steps.push(MoveStep::RebaseDescendants);
    } else if source_is_ancestor {
        steps.push(source);
        steps.push(MoveStep::RebaseDescendantsWithMap);
        steps.push(MoveStep::ReloadDestination);
        steps.push(MoveStep::RewriteDestination);
        steps.push(MoveStep::RebaseDescendants);
    } else {
        steps.push(source);
        steps.push(MoveStep::RewriteDestination);
        steps.push(MoveStep::RebaseDescendants);
    }
    assert(steps@ =~= move_steps(abandon_source, source_is_ancestor, destination_is_ancestor));
    steps
}

/// A source left with exactly its parent's tree is abandoned, never
/// rewritten, and the destination then carries the combined description:
/// its own, then the source's, joined by a newline, each alone where the
/// other is empty.
pub proof fn lemma_emptied_source_is_abandoned(
    source_is_ancestor: bool,
    destination_is_ancestor: bool,
    source: Seq<char>,
    destination: Seq<char>,
)
    ensures
        move_steps(true, source_is_ancestor, destination_is_ancestor).contains(MoveStep::AbandonSource),
        !move_steps(true, source_is_ancestor, destination_is_ancestor).contains(MoveStep::RewriteSource),
        source.len() > 0 && destination.len() > 0 ==> combined_description(source, destination, true)
            == destination + "\n"@ + source,
        source.len() == 0 ==> combined_description(source, destination, true) == destination,
        destination.len() == 0 ==> combined_description(source, destination, true) == source,
{
    let s = move_steps(true, source_is_ancestor, destination_is_ancestor);
    if destination_is_ancestor {
        assert(s[1] == MoveStep::AbandonSource);
    } else {
        assert(s[0] == MoveStep::AbandonSource);
    }
    assert forall|i: int| 0 <= i < s.len() implies s[i] != MoveStep::RewriteSource by {}
}

} // verus!
