use gg::refs::{plan_ref_operation, select_remotes, RefAction, RefOperation, StoreRef};

fn tag(name: &str) -> StoreRef {
    StoreRef::Tag { tag_name: name.to_owned() }
}

fn local(name: &str) -> StoreRef {
    StoreRef::LocalBookmark { branch_name: name.to_owned() }
}

fn remote(name: &str, remote: &str) -> StoreRef {
    StoreRef::RemoteBookmark { branch_name: name.to_owned(), remote_name: remote.to_owned() }
}

fn args(a: RefAction) -> Vec<String> {
    match a {
        RefAction::Run { args } => args,
        _ => panic!("expected a command"),
    }
}

fn refusal(a: RefAction) -> String {
    match a {
        RefAction::Refuse { message } => message,
        _ => panic!("expected a refusal"),
    }
}

#[test]
fn tracking_needs_a_remote_bookmark() {
    assert_eq!(refusal(plan_ref_operation(&RefOperation::Track, &tag("v1"))), "v1 is a tag and cannot be tracked");
    assert_eq!(
        refusal(plan_ref_operation(&RefOperation::Track, &local("main"))),
        "main is a local bookmark and cannot be tracked"
    );
    assert_eq!(args(plan_ref_operation(&RefOperation::Track, &remote("main", "origin"))), vec!["bookmark", "track", "main@origin"]);
}

#[test]
fn untracking_a_local_bookmark_untracks_its_remotes() {
    assert_eq!(refusal(plan_ref_operation(&RefOperation::Untrack, &tag("v1"))), "v1 is a tag and cannot be untracked");
    match plan_ref_operation(&RefOperation::Untrack, &local("main")) {
        RefAction::UntrackRemotes { branch_name } => assert_eq!(branch_name, "main"),
        _ => panic!("expected untracking of remotes"),
    }
    assert_eq!(
        args(plan_ref_operation(&RefOperation::Untrack, &remote("main", "origin"))),
        vec!["bookmark", "untrack", "main@origin"]
    );
}

#[test]
fn creating_refs() {
    let op = RefOperation::Create { revision: "abcd".to_owned() };
    assert_eq!(args(plan_ref_operation(&op, &tag("v1"))), vec!["tag", "set", "-r", "abcd", "v1"]);
    assert_eq!(args(plan_ref_operation(&op, &local("main"))), vec!["bookmark", "create", "-r", "abcd", "main"]);
    assert_eq!(
        refusal(plan_ref_operation(&op, &remote("main", "origin"))),
        "main@origin is a remote bookmark and cannot be created"
    );
}

#[test]
fn deleting_and_moving_refs() {
    assert_eq!(args(plan_ref_operation(&RefOperation::Delete, &tag("v1"))), vec!["tag", "delete", "v1"]);
    assert_eq!(args(plan_ref_operation(&RefOperation::Delete, &local("main"))), vec!["bookmark", "forget", "main"]);
    assert_eq!(args(plan_ref_operation(&RefOperation::Delete, &remote("main", "o"))), vec!["bookmark", "forget", "main"]);
    let op = RefOperation::Move { revision: "ef01".to_owned() };
    assert_eq!(args(plan_ref_operation(&op, &tag("v1"))), vec!["tag", "set", "-r", "ef01", "v1", "--allow-move"]);
    assert_eq!(args(plan_ref_operation(&op, &local("main"))), vec!["bookmark", "move", "main", "--to", "ef01"]);
    assert_eq!(refusal(plan_ref_operation(&op, &remote("main", "origin"))), "Bookmark is remote: main@origin");
}

#[test]
fn renaming_needs_a_bookmark() {
    let op = RefOperation::Rename { new_name: "trunk".to_owned() };
    assert!(matches!(plan_ref_operation(&op, &tag("v1")), RefAction::NotABookmark));
    assert_eq!(args(plan_ref_operation(&op, &local("main"))), vec!["bookmark", "rename", "main", "trunk"]);
}

#[test]
fn remotes_are_filtered_by_tracked_bookmark() {
    let all = vec!["origin".to_owned(), "upstream".to_owned(), "fork".to_owned()];
    assert_eq!(select_remotes(all.clone(), &vec![true, false, true], true), vec!["origin", "fork"]);
    assert_eq!(select_remotes(all.clone(), &vec![false, false, false], false), all);
}
