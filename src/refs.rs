//! Operations on refs (tags, local bookmarks, remote bookmarks): which are
//! legal for which kind of ref, and the command each one runs.
use vstd::prelude::*;
use vstd::string::StringExecFns;

verus! {

/// A ref of the repository.
pub enum StoreRef {
    Tag { tag_name: String },
    LocalBookmark { branch_name: String },
    RemoteBookmark { branch_name: String, remote_name: String },
}

/// Mathematical value of a ref.
pub enum RefView {
    Tag { tag_name: Seq<char> },
    LocalBookmark { branch_name: Seq<char> },
    RemoteBookmark { branch_name: Seq<char>, remote_name: Seq<char> },
}

impl StoreRef {
    pub open spec fn view(&self) -> RefView {
        match self {
            StoreRef::Tag { tag_name } => RefView::Tag { tag_name: tag_name@ },
            StoreRef::LocalBookmark { branch_name } => RefView::LocalBookmark { branch_name: branch_name@ },
            StoreRef::RemoteBookmark { branch_name, remote_name } => RefView::RemoteBookmark {
                branch_name: branch_name@,
                remote_name: remote_name@,
            },
        }
    }
}

/// What is asked of a ref; `revision` names the commit to point at.
pub enum RefOperation {
    Track,
    Untrack,
    Create { revision: String },
    Delete,
    Move { revision: String },
    Rename { new_name: String },
}

/// Mathematical value of an operation.
pub enum RefOperationView {
    Track,
    Untrack,
    Create { revision: Seq<char> },
    Delete,
    Move { revision: Seq<char> },
    Rename { new_name: Seq<char> },
}

impl RefOperation {
    pub open spec fn view(&self) -> RefOperationView {
        match self {
            RefOperation::Track => RefOperationView::Track,
            RefOperation::Untrack => RefOperationView::Untrack,
            RefOperation::Create { revision } => RefOperationView::Create { revision: revision@ },
            RefOperation::Delete => RefOperationView::Delete,
            RefOperation::Move { revision } => RefOperationView::Move { revision: revision@ },
            RefOperation::Rename { new_name } => RefOperationView::Rename { new_name: new_name@ },
        }
    }
}

/// What to do for an operation on a ref.
pub enum RefAction {
    /// Run the version-control command with these arguments.
    Run { args: Vec<String> },
    /// Untrack every tracked remote bookmark of this name, but that of the
    /// colocated git repository.
    UntrackRemotes { branch_name: String },
    /// Refuse the operation, with this message for the user.
    Refuse { message: String },
    /// The operation needs a bookmark and the ref is a tag.
    NotABookmark,
}

/// Mathematical value of an action.
pub enum RefActionView {
    Run { args: Seq<Seq<char>> },
    UntrackRemotes { branch_name: Seq<char> },
    Refuse { message: Seq<char> },
    NotABookmark,
}

pub open spec fn strings_view(v: Seq<String>) -> Seq<Seq<char>> {
    v.map_values(|s: String| s@)
}

impl RefAction {
    pub open spec fn view(&self) -> RefActionView {
        match self {
            RefAction::Run { args } => RefActionView::Run { args: strings_view(args@) },
            RefAction::UntrackRemotes { branch_name } => RefActionView::UntrackRemotes { branch_name: branch_name@ },
            RefAction::Refuse { message } => RefActionView::Refuse { message: message@ },
            RefAction::NotABookmark => RefActionView::NotABookmark,
        }
    }
}

/// `branch@remote`, the name of a remote bookmark.
pub open spec fn remote_symbol(branch: Seq<char>, remote: Seq<char>) -> Seq<char> {
    branch + "@"@ + remote
}

/// The action for each operation and kind of ref: tags and local bookmarks
/// cannot be tracked; tags cannot be untracked; remote bookmarks cannot be
/// created or moved; renaming needs a bookmark.
pub open spec fn ref_action(op: RefOperationView, r: RefView) -> RefActionView {
    match op {
        RefOperationView::Track => match r {
            RefView::Tag { tag_name } => RefActionView::Refuse { message: tag_name + " is a tag and cannot be tracked"@ },
            RefView::LocalBookmark { branch_name } => RefActionView::Refuse {
                message: branch_name + " is a local bookmark and cannot be tracked"@,
            },
            RefView::RemoteBookmark { branch_name, remote_name } => RefActionView::Run {
                args: seq!["bookmark"@, "track"@, remote_symbol(branch_name, remote_name)],
            },
        },
        RefOperationView::Untrack => match r {
            RefView::Tag { tag_name } => RefActionView::Refuse { message: tag_name + " is a tag and cannot be untracked"@ },
            RefView::LocalBookmark { branch_name } => RefActionView::UntrackRemotes { branch_name },
            RefView::RemoteBookmark { branch_name, remote_name } => RefActionView::Run {
                args: seq!["bookmark"@, "untrack"@, remote_symbol(branch_name, remote_name)],
            },
        },
        RefOperationView::Create { revision } => match r {
            RefView::Tag { tag_name } => RefActionView::Run { args: seq!["tag"@, "set"@, "-r"@, revision, tag_name] },
            RefView::LocalBookmark { branch_name } => RefActionView::Run {
                args: seq!["bookmark"@, "create"@, "-r"@, revision, branch_name],
            },
            RefView::RemoteBookmark { branch_name, remote_name } => RefActionView::Refuse {
                message: remote_symbol(branch_name, remote_name) + " is a remote bookmark and cannot be created"@,
            },
        },
        RefOperationView::Delete => match r {
            RefView::Tag { tag_name } => RefActionView::Run { args: seq!["tag"@, "delete"@, tag_name] },
            RefView::LocalBookmark { branch_name } => RefActionView::Run { args: seq!["bookmark"@, "forget"@, branch_name] },
            RefView::RemoteBookmark { branch_name, remote_name } => RefActionView::Run {
                args: seq!["bookmark"@, "forget"@, branch_name],
            },
        },
        RefOperationView::Move { revision } => match r {
            RefView::Tag { tag_name } => RefActionView::Run {
                args: seq!["tag"@, "set"@, "-r"@, revision, tag_name, "--allow-move"@],
            },
            RefView::LocalBookmark { branch_name } => RefActionView::Run {
                args: seq!["bookmark"@, "move"@, branch_name, "--to"@, revision],
            },
            RefView::RemoteBookmark { branch_name, remote_name } => RefActionView::Refuse {
                message: "Bookmark is remote: "@ + remote_symbol(branch_name, remote_name),
            },
        },
        RefOperationView::Rename { new_name } => match r {
            RefView::Tag { tag_name } => RefActionView::NotABookmark,
            RefView::LocalBookmark { branch_name } => RefActionView::Run {
                args: seq!["bookmark"@, "rename"@, branch_name, new_name],
            },
            RefView::RemoteBookmark { branch_name, remote_name } => RefActionView::Run {
                args: seq!["bookmark"@, "rename"@, branch_name, new_name],
            },
        },
    }
}

fn text(s: &str) -> (r: String)
    ensures
        r@ == s@,
{
    String::from_str(s)
}

fn joined(a: &String, b: &str) -> (r: String)
    ensures
        r@ == a@ + b@,
{
    let mut r = String::from_str(a.as_str());
    r.append(b);
    r
}

fn symbol(branch: &String, remote: &String) -> (r: String)
    ensures
        r@ == remote_symbol(branch@, remote@),
{
    let mut r = String::from_str(branch.as_str());
    r.append("@");
    r.append(remote.as_str());
    r
}

fn args_of(items: Vec<String>) -> (r: RefAction)
    ensures
        r.view() == (RefActionView::Run { args: strings_view(items@) }),
{
    RefAction::Run { args: items }
}

/// Decides what an operation on a ref does.
pub fn plan_ref_operation(op: &RefOperation, r: &StoreRef) -> (a: RefAction)
    ensures
        a.view() == ref_action(op.view(), r.view()),
{
    proof {
        reveal_strlit("@");
    }
    match op {
        RefOperation::Track => match r {
            StoreRef::Tag { tag_name } => RefAction::Refuse { message: joined(tag_name, " is a tag and cannot be tracked") },
            StoreRef::LocalBookmark { branch_name } => RefAction::Refuse {
                message: joined(branch_name, " is a local bookmark and cannot be tracked"),
            },
            StoreRef::RemoteBookmark { branch_name, remote_name } => {
                let mut v: Vec<String> = Vec::new();
                v.push(text("bookmark"));
                v.push(text("track"));
                v.push(symbol(branch_name, remote_name));
                assert(strings_view(v@) =~= seq!["bookmark"@, "track"@, remote_symbol(branch_name@, remote_name@)]);
                let a = args_of(v);
                a
            },
        },
        RefOperation::Untrack => match r {
            StoreRef::Tag { tag_name } => RefAction::Refuse { message: joined(tag_name, " is a tag and cannot be untracked") },
            StoreRef::LocalBookmark { branch_name } => RefAction::UntrackRemotes { branch_name: text(branch_name.as_str()) },
            StoreRef::RemoteBookmark { branch_name, remote_name } => {
                let mut v: Vec<String> = Vec::new();
                v.push(text("bookmark"));
                v.push(text("untrack"));
                v.push(symbol(branch_name, remote_name));
                assert(strings_view(v@) =~= seq!["bookmark"@, "untrack"@, remote_symbol(branch_name@, remote_name@)]);
                let a = args_of(v);
                a
            },
        },
        RefOperation::Create { revision } => match r {
            StoreRef::Tag { tag_name } => {
                let mut v: Vec<String> = Vec::new();
                v.push(text("tag"));
                v.push(text("set"));
                v.push(text("-r"));
                v.push(text(revision.as_str()));
                v.push(text(tag_name.as_str()));
                assert(strings_view(v@) =~= seq!["tag"@, "set"@, "-r"@, revision@, tag_name@]);
                let a = args_of(v);
                a
            },
            StoreRef::LocalBookmark { branch_name } => {
                let mut v: Vec<String> = Vec::new();
                v.push(text("bookmark"));
                v.push(text("create"));
                v.push(text("-r"));
                v.push(text(revision.as_str()));
                v.push(text(branch_name.as_str()));
                assert(strings_view(v@) =~= seq!["bookmark"@, "create"@, "-r"@, revision@, branch_name@]);
                let a = args_of(v);
                a
            },
            StoreRef::RemoteBookmark { branch_name, remote_name } => {
                let s = symbol(branch_name, remote_name);
                RefAction::Refuse { message: joined(&s, " is a remote bookmark and cannot be created") }
            },
        },
        RefOperation::Delete => match r {
            StoreRef::Tag { tag_name } => {
                let mut v: Vec<String> = Vec::new();
                v.push(text("tag"));
                v.push(text("delete"));
                v.push(text(tag_name.as_str()));
                assert(strings_view(v@) =~= seq!["tag"@, "delete"@, tag_name@]);
                let a = args_of(v);
                a
            },
            StoreRef::LocalBookmark { branch_name } => {
                let mut v: Vec<String> = Vec::new();
                v.push(text("bookmark"));
                v.push(text("forget"));
                v.push(text(branch_name.as_str()));
                assert(strings_view(v@) =~= seq!["bookmark"@, "forget"@, branch_name@]);
                let a = args_of(v);
                a
            },
            StoreRef::RemoteBookmark { branch_name, .. } => {
                let mut v: Vec<String> = Vec::new();
                v.push(text("bookmark"));
                v.push(text("forget"));
                v.push(text(branch_name.as_str()));
                assert(strings_view(v@) =~= seq!["bookmark"@, "forget"@, branch_name@]);
                let a = args_of(v);
                a
            },
        },
        RefOperation::Move { revision } => match r {
            StoreRef::Tag { tag_name } => {
                let mut v: Vec<String> = Vec::new();
                v.push(text("tag"));
                v.push(text("set"));
                v.push(text("-r"));
                v.push(text(revision.as_str()));
                v.push(text(tag_name.as_str()));
                v.push(text("--allow-move"));
                assert(strings_view(v@) =~= seq!["tag"@, "set"@, "-r"@, revision@, tag_name@, "--allow-move"@]);
                let a = args_of(v);
                a
            },
            StoreRef::LocalBookmark { branch_name } => {
                let mut v: Vec<String> = Vec::new();
                v.push(text("bookmark"));
                v.push(text("move"));
                v.push(text(branch_name.as_str()));
                v.push(text("--to"));
                v.push(text(revision.as_str()));
                assert(strings_view(v@) =~= seq!["bookmark"@, "move"@, branch_name@, "--to"@, revision@]);
                let a = args_of(v);
                a
            },
            StoreRef::RemoteBookmark { branch_name, remote_name } => {
                let s = symbol(branch_name, remote_name);
                let mut m = text("Bookmark is remote: ");
                m.append(s.as_str());
                RefAction::Refuse { message: m }
            },
        },
        RefOperation::Rename { new_name } => match r {
            StoreRef::Tag { .. } => RefAction::NotABookmark,
            StoreRef::LocalBookmark { branch_name } => {
                let mut v: Vec<String> = Vec::new();
                v.push(text("bookmark"));
                v.push(text("rename"));
                v.push(text(branch_name.as_str()));
                v.push(text(new_name.as_str()));
                assert(strings_view(v@) =~= seq!["bookmark"@, "rename"@, branch_name@, new_name@]);
                let a = args_of(v);
                a
            },
            StoreRef::RemoteBookmark { branch_name, .. } => {
                let mut v: Vec<String> = Vec::new();
                v.push(text("bookmark"));
                v.push(text("rename"));
                v.push(text(branch_name.as_str()));
                v.push(text(new_name.as_str()));
                assert(strings_view(v@) =~= seq!["bookmark"@, "rename"@, branch_name@, new_name@]);
                let a = args_of(v);
                a
            },
        },
    }
}

/// The remotes kept where `keep` holds, in order.
pub open spec fn kept_remotes(rs: Seq<Seq<char>>, keep: Seq<bool>) -> Seq<Seq<char>>
    decreases rs.len(),
{
    if rs.len() == 0 {
        seq![]
    } else if keep[rs.len() - 1] {
        kept_remotes(rs.drop_last(), keep).push(rs.last())
    } else {
        kept_remotes(rs.drop_last(), keep)
    }
}

/// The remotes offered for a bookmark: all of them where no bookmark is
/// given, else those (in order) whose bookmark of that name is present and
/// tracked, as `keep` tells for each.
pub fn select_remotes(remotes: Vec<String>, keep: &Vec<bool>, for_bookmark: bool) -> (r: Vec<String>)
    requires
        keep@.len() == remotes@.len(),
    ensures
        strings_view(r@) == if for_bookmark {
            kept_remotes(strings_view(remotes@), keep@)
        } else {
            strings_view(remotes@)
        },
{
    if !for_bookmark {
        return remotes;
    }
    let ghost all = strings_view(remotes@);
    let mut out: Vec<String> = Vec::new();
    let mut i: usize = 0;
    assert(all.take(0) =~= Seq::<Seq<char>>::empty());
    while i < remotes.len()
        invariant
            i <= remotes@.len(),
            keep@.len() == remotes@.len(),
            all == strings_view(remotes@),
            strings_view(out@) == kept_remotes(all.take(i as int), keep@),
        decreases remotes@.len() - i,
    {
        assert(all.take(i + 1).drop_last() =~= all.take(i as int));
        assert(all.take(i + 1).last() == remotes@[i as int]@);
        if keep[i] {
            let ghost before = strings_view(out@);
            out.push(text(remotes[i].as_str()));
            assert(strings_view(out@) =~= before.push(remotes@[i as int]@));
        }
        i = i + 1;
    }
    assert(all.take(remotes@.len() as int) =~= all);
    out
}

} // verus!
