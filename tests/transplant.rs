use gg::hunk::{apply_hunk_to_base, ChangeHunk, FileRange, HunkLocation};
use gg::transplant::{check_copy_hunk, check_move_hunk, combine_messages, plan_move_hunk, MoveStep, Precondition};

#[test]
fn moving_a_whole_change_to_an_unrelated_commit_abandons_the_source() {
    // A holds "x\ny\n"; B (child of A) deletes line 2; C is another child of A.
    let base = b"x\ny\n";
    let source = b"x\n";
    let hunk = ChangeHunk {
        location: HunkLocation { from_file: FileRange { start: 1, len: 2 }, to_file: FileRange { start: 1, len: 1 } },
        lines: vec![b" x\n".to_vec(), b"-y\n".to_vec()],
    };
    let sibling = apply_hunk_to_base(base, &hunk).ok().unwrap();
    // The sibling holds the whole change, so removing it leaves B at A's tree.
    assert_eq!(sibling, source.to_vec());
    assert_eq!(check_move_hunk(false, 1), None);
    let steps = plan_move_hunk(true, false, false);
    assert_eq!(steps, vec![MoveStep::AbandonSource, MoveStep::RewriteDestination, MoveStep::RebaseDescendants]);
    assert_eq!(combine_messages("drop y", "", true), "drop y");
}

#[test]
fn move_order_depends_on_ancestry() {
    assert_eq!(
        plan_move_hunk(false, false, true),
        vec![MoveStep::RewriteDestination, MoveStep::RewriteSource, MoveStep::RebaseDescendants]
    );
    assert_eq!(
        plan_move_hunk(false, true, false),
        vec![
            MoveStep::RewriteSource,
            MoveStep::RebaseDescendantsWithMap,
            MoveStep::ReloadDestination,
            MoveStep::RewriteDestination,
            MoveStep::RebaseDescendants,
        ]
    );
    assert_eq!(
        plan_move_hunk(true, false, true),
        vec![MoveStep::RewriteDestination, MoveStep::AbandonSource, MoveStep::RebaseDescendants]
    );
}

#[test]
fn move_preconditions() {
    assert_eq!(check_move_hunk(true, 1), Some(Precondition::ImmutableRevisions));
    assert_eq!(check_move_hunk(false, 2), Some(Precondition::MergeSource));
    assert_eq!(check_move_hunk(false, 0), Some(Precondition::MergeSource));
    assert_eq!(check_move_hunk(true, 2), Some(Precondition::ImmutableRevisions));
    assert_eq!(Precondition::MergeSource.message(), "Cannot move hunk from a merge commit");
    assert_eq!(Precondition::ImmutableRevisions.message(), "Revisions are immutable");
}

#[test]
fn copy_preconditions() {
    assert_eq!(check_copy_hunk(true, true), Some(Precondition::ImmutableRevision));
    assert_eq!(check_copy_hunk(false, true), Some(Precondition::ConflictedDestination));
    assert_eq!(check_copy_hunk(false, false), None);
    assert_eq!(
        Precondition::ConflictedDestination.message(),
        "Cannot restore hunk: destination file has conflicts"
    );
    assert_eq!(Precondition::ImmutableRevision.message(), "Revision is immutable");
}

#[test]
fn descriptions_are_combined_when_the_source_is_abandoned() {
    assert_eq!(combine_messages("src", "dst", true), "dst\nsrc");
    assert_eq!(combine_messages("", "dst", true), "dst");
    assert_eq!(combine_messages("src", "", true), "src");
    assert_eq!(combine_messages("", "", true), "");
    assert_eq!(combine_messages("src", "dst", false), "dst");
    assert_eq!(combine_messages("src", "", false), "");
}
