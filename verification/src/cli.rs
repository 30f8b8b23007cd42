//! The command line of `blackboard`, as plain data: what a parser hands to
//! the commands.
use vstd::prelude::*;

verus! {

/// The whole command line: whether to print JSON, and the command.
pub struct Cli {
    pub json: bool,
    pub cmd: Cmd,
}

/// The commands.
pub enum Cmd {
    Init { user: String },
    Clear,
    Board(BoardCmd),
    Task(TaskCmd),
    User(UserCmd),
}

/// The `board` commands.
pub enum BoardCmd {
    Create { user: String, name: String },
    List { user: String },
    View { user: String, board: String },
    Members { user: String, board: String },
    Poll { user: String, board: String, interval: u64, idle_notice_secs: u64 },
    Grant { user: String, board: String, target: String, permissions: Vec<PermissionArg> },
    Revoke { user: String, board: String, target: String },
    Delete { user: String, board: String },
}

/// The `task` commands.
#[allow(inconsistent_fields)]
pub enum TaskCmd {
    List {
        user: String,
        board: String,
        status: Option<StatusArg>,
        size: Option<SizeArg>,
        parent: Option<i64>,
        assignee: Option<String>,
    },
    View { user: String, board: String, task_id: i64 },
    Add {
        user: String,
        board: String,
        title: String,
        description: String,
        size: SizeArg,
        parent: Option<i64>,
        assignee: Option<String>,
        depends_on: Option<String>,
    },
    Edit {
        user: String,
        board: String,
        task_id: i64,
        title: Option<String>,
        description: Option<String>,
        size: Option<SizeArg>,
        parent: Option<i64>,
        assignee: Option<String>,
        depends_on: Option<String>,
        clear_depends_on: bool,
    },
    Status { user: String, board: String, task_id: i64, status: StatusArg, note: Option<String> },
    Delete { user: String, board: String, task_id: i64 },
}

/// The `user` commands.
pub enum UserCmd {
    Add { user: String, name: String },
    Remove { user: String, name: String },
    List { user: String },
}

/// A task status.
#[derive(Clone, Copy, PartialEq, Eq, Structural)]
pub enum StatusArg {
    Pending,
    InProgress,
    Completed,
    Blocked,
}

/// The name of a status.
pub open spec fn status_name(s: StatusArg) -> Seq<char> {
    match s {
        StatusArg::Pending => "pending"@,
        StatusArg::InProgress => "in_progress"@,
        StatusArg::Completed => "completed"@,
        StatusArg::Blocked => "blocked"@,
    }
}

impl StatusArg {
    /// The name of the status, as the tables store it.
    pub fn as_str(&self) -> (r: &'static str)
        ensures
            r@ == status_name(*self),
    {
        match self {
            StatusArg::Pending => "pending",
            StatusArg::InProgress => "in_progress",
            StatusArg::Completed => "completed",
            StatusArg::Blocked => "blocked",
        }
    }
}

/// A task size.
#[derive(Clone, Copy, PartialEq, Eq, Structural)]
pub enum SizeArg {
    Small,
    Medium,
    Large,
}

/// The name of a size.
pub open spec fn size_name(s: SizeArg) -> Seq<char> {
    match s {
        SizeArg::Small => "small"@,
        SizeArg::Medium => "medium"@,
        SizeArg::Large => "large"@,
    }
}

impl SizeArg {
    /// The name of the size, as the tables store it.
    pub fn as_str(&self) -> (r: &'static str)
        ensures
            r@ == size_name(*self),
    {
        match self {
            SizeArg::Small => "small",
            SizeArg::Medium => "medium",
            SizeArg::Large => "large",
        }
    }
}

/// A permission on a board.
#[derive(Clone, Copy, PartialEq, Eq, Structural)]
pub enum PermissionArg {
    Read,
    Create,
    Update,
    Delete,
    SetStatus,
    Assign,
    DeleteBoard,
}

/// The name of a permission.
pub open spec fn permission_name(p: PermissionArg) -> Seq<char> {
    match p {
        PermissionArg::Read => "read"@,
        PermissionArg::Create => "create"@,
        PermissionArg::Update => "update"@,
        PermissionArg::Delete => "delete"@,
        PermissionArg::SetStatus => "set_status"@,
        PermissionArg::Assign => "assign"@,
        PermissionArg::DeleteBoard => "delete_board"@,
    }
}

impl PermissionArg {
    /// The name of the permission, as the tables store it.
    pub fn as_str(&self) -> (r: &'static str)
        ensures
            r@ == permission_name(*self),
    {
        match self {
            PermissionArg::Read => "read",
            PermissionArg::Create => "create",
            PermissionArg::Update => "update",
            PermissionArg::Delete => "delete",
            PermissionArg::SetStatus => "set_status",
            PermissionArg::Assign => "assign",
            PermissionArg::DeleteBoard => "delete_board",
        }
    }
}

/// The actions that `board grant` gives for the permissions of its command
/// line: their names in order, or `read` alone when none was given.
pub open spec fn grant_actions(perms: Seq<PermissionArg>) -> Seq<Seq<char>> {
    if perms.len() == 0 {
        seq!["read"@]
    } else {
        perms.map_values(|p: PermissionArg| permission_name(p))
    }
}

/// The names of the permissions of `board grant`, with `read` when none was
/// given.
pub fn grant_action_names(perms: &Vec<PermissionArg>) -> (r: Vec<String>)
    ensures
        crate::text::views(r@) == grant_actions(perms@),
{
    let mut out: Vec<String> = Vec::new();
    let mut i: usize = 0;
    while i < perms.len()
        invariant
            i <= perms@.len(),
            crate::text::views(out@) == perms@.take(i as int).map_values(
                |p: PermissionArg| permission_name(p),
            ),
        decreases perms@.len() - i,
    {
        let s = String::from_str(perms[i].as_str());
        let ghost before = out@;
        out.push(s);
        assert(crate::text::views(out@) =~= crate::text::views(before).push(s@));
        assert(perms@.take(i + 1).map_values(|p: PermissionArg| permission_name(p))
            =~= perms@.take(i as int).map_values(|p: PermissionArg| permission_name(p)).push(
            permission_name(perms@[i as int]),
        ));
        i = i + 1;
    }
    assert(perms@.take(perms@.len() as int) =~= perms@);
    if out.len() == 0 {
        out.push(String::from_str("read"));
        assert(crate::text::views(out@) =~= seq!["read"@]);
    }
    out
}

} // verus!
