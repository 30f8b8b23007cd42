//! The command flows of the board, run against the tables in memory, with
//! each command line given as its words.
use blackboard::cli::{BoardCmd, Cmd, PermissionArg, SizeArg, StatusArg, TaskCmd, UserCmd};
use blackboard::commands::run_command;
use blackboard::error::CmdError;
use blackboard::store::{Db, Outcome};

struct TestEnv {
    db: Db,
    now: i64,
}

fn flag(args: &[&str], name: &str) -> Option<String> {
    let mut i = 0;
    while i + 1 < args.len() {
        if args[i] == name {
            return Some(args[i + 1].to_string());
        }
        i += 1;
    }
    None
}

fn has(args: &[&str], name: &str) -> bool {
    args.iter().any(|a| *a == name)
}

fn req(args: &[&str], name: &str) -> String {
    flag(args, name).unwrap_or_else(|| panic!("missing {name}"))
}

fn id_flag(args: &[&str], name: &str) -> Option<i64> {
    flag(args, name).map(|v| v.parse::<i64>().expect("id"))
}

fn status_arg(s: &str) -> StatusArg {
    match s {
        "pending" => StatusArg::Pending,
        "in_progress" => StatusArg::InProgress,
        "completed" => StatusArg::Completed,
        "blocked" => StatusArg::Blocked,
        other => panic!("bad status {other}"),
    }
}

fn size_arg(s: &str) -> SizeArg {
    match s {
        "small" => SizeArg::Small,
        "medium" => SizeArg::Medium,
        "large" => SizeArg::Large,
        other => panic!("bad size {other}"),
    }
}

fn permission_arg(s: &str) -> PermissionArg {
    match s {
        "read" => PermissionArg::Read,
        "create" => PermissionArg::Create,
        "update" => PermissionArg::Update,
        "delete" => PermissionArg::Delete,
        "set_status" => PermissionArg::SetStatus,
        "assign" => PermissionArg::Assign,
        "delete_board" => PermissionArg::DeleteBoard,
        other => panic!("bad permission {other}"),
    }
}

impl TestEnv {
    fn new() -> Self {
        TestEnv { db: Db::new(), now: 1_700_000_000 }
    }

    fn run(&mut self, args: &[&str]) -> Result<Outcome, CmdError> {
        self.now += 1;
        let user = flag(args, "--user").unwrap_or_default();
        let cmd = match (args[0], args.get(1).copied().unwrap_or("")) {
            ("init", _) => Cmd::Init { user },
            ("user", "add") => Cmd::User(UserCmd::Add { user, name: req(args, "--name") }),
            ("user", "remove") => Cmd::User(UserCmd::Remove { user, name: req(args, "--name") }),
            ("user", "list") => Cmd::User(UserCmd::List { user }),
            ("board", "create") => Cmd::Board(BoardCmd::Create { user, name: req(args, "--name") }),
            ("board", "list") => Cmd::Board(BoardCmd::List { user }),
            ("board", "view") => Cmd::Board(BoardCmd::View { user, board: req(args, "--board") }),
            ("board", "members") => {
                Cmd::Board(BoardCmd::Members { user, board: req(args, "--board") })
            }
            ("board", "grant") => Cmd::Board(BoardCmd::Grant {
                user,
                board: req(args, "--board"),
                target: req(args, "--target"),
                permissions: match flag(args, "--permissions") {
                    Some(p) => p.split(',').map(permission_arg).collect(),
                    None => Vec::new(),
                },
            }),
            ("board", "revoke") => Cmd::Board(BoardCmd::Revoke {
                user,
                board: req(args, "--board"),
                target: req(args, "--target"),
            }),
            ("board", "delete") => Cmd::Board(BoardCmd::Delete { user, board: req(args, "--board") }),
            ("task", "list") => Cmd::Task(TaskCmd::List {
                user,
                board: req(args, "--board"),
                status: flag(args, "--status").map(|s| status_arg(&s)),
                size: flag(args, "--size").map(|s| size_arg(&s)),
                parent: id_flag(args, "--parent"),
                assignee: flag(args, "--assignee"),
            }),
            ("task", "view") => Cmd::Task(TaskCmd::View {
                user,
                board: req(args, "--board"),
                task_id: id_flag(args, "--task-id").unwrap(),
            }),
            ("task", "add") => Cmd::Task(TaskCmd::Add {
                user,
                board: req(args, "--board"),
                title: req(args, "--title"),
                description: req(args, "--description"),
                size: size_arg(&flag(args, "--size").unwrap_or_else(|| "medium".to_string())),
                parent: id_flag(args, "--parent"),
                assignee: flag(args, "--assignee"),
                depends_on: flag(args, "--depends-on"),
            }),
            ("task", "edit") => Cmd::Task(TaskCmd::Edit {
                user,
                board: req(args, "--board"),
                task_id: id_flag(args, "--task-id").unwrap(),
                title: flag(args, "--title"),
                description: flag(args, "--description"),
                size: flag(args, "--size").map(|s| size_arg(&s)),
                parent: id_flag(args, "--parent"),
                assignee: flag(args, "--assignee"),
                depends_on: flag(args, "--depends-on"),
                clear_depends_on: has(args, "--clear-depends-on"),
            }),
            ("task", "status") => Cmd::Task(TaskCmd::Status {
                user,
                board: req(args, "--board"),
                task_id: id_flag(args, "--task-id").unwrap(),
                status: status_arg(&req(args, "--status")),
                note: flag(args, "--note"),
            }),
            ("task", "delete") => Cmd::Task(TaskCmd::Delete {
                user,
                board: req(args, "--board"),
                task_id: id_flag(args, "--task-id").unwrap(),
            }),
            (a, b) => panic!("unknown command {a} {b}"),
        };
        run_command(&mut self.db, cmd, self.now)
    }

    fn run_ok(&mut self, args: &[&str]) -> String {
        match self.run(args) {
            Ok(out) => {
                let lines: Vec<String> = out.lines.iter().map(|l| l.clone()).collect();
                lines.join("\n")
            }
            Err(e) => panic!("command {args:?} failed: {}", e.to_string()),
        }
    }

    fn run_err(&mut self, args: &[&str]) -> String {
        match self.run(args) {
            Ok(out) => panic!("command {args:?} succeeded: {:?}", out.lines),
            Err(e) => format!("blackboard: {}", e.to_string()),
        }
    }
}

#[test]
fn user_and_board_flow_works_end_to_end() {
    let mut env = TestEnv::new();

    let out = env.run_ok(&["init", "--user", "alice"]);
    assert!(out.contains("initialized user alice"));

    let out = env.run_ok(&["user", "add", "--user", "alice", "--name", "bob"]);
    assert!(out.contains("added user bob"));

    let out = env.run_ok(&["board", "create", "--user", "alice", "--name", "alpha"]);
    assert!(out.contains("created board alpha (id=1)"));

    let out = env.run_ok(&["board", "list", "--user", "alice"]);
    assert!(out.contains("alpha"));

    let out = env.run_ok(&[
        "board", "grant", "--user", "alice", "--board", "alpha", "--target", "bob",
    ]);
    assert!(out.contains("granted"));
    assert!(out.contains("permissions: read"));

    let out = env.run_ok(&["board", "list", "--user", "bob"]);
    assert!(out.contains("alpha"));

    let out = env.run_ok(&["board", "view", "--user", "bob", "--board", "1"]);
    assert!(out.contains("board alpha (id=1)"));

    let out = env.run_ok(&["board", "members", "--user", "alice", "--board", "alpha"]);
    assert!(out.contains("alice [owner] perms=all"));
    assert!(out.contains("bob [member] perms=read"));

    let out = env.run_ok(&[
        "board", "revoke", "--user", "alice", "--board", "alpha", "--target", "bob",
    ]);
    assert!(out.contains("revoked 1 row(s)"));

    let out = env.run_ok(&["board", "list", "--user", "bob"]);
    assert!(!out.contains("alpha"));

    let err = env.run_err(&["board", "view", "--user", "bob", "--board", "alpha"]);
    assert!(err.contains("forbidden: read denied"));
}

#[test]
fn permissions_gate_each_action() {
    let mut env = TestEnv::new();

    env.run_ok(&["init", "--user", "alice"]);
    env.run_ok(&["user", "add", "--user", "alice", "--name", "bob"]);
    env.run_ok(&["user", "add", "--user", "alice", "--name", "carol"]);
    env.run_ok(&["board", "create", "--user", "alice", "--name", "alpha"]);

    env.run_ok(&["board", "grant", "--user", "alice", "--board", "alpha", "--target", "bob", "--permissions", "read"]);

    let err = env.run_err(&["task", "add", "--user", "bob", "--board", "alpha", "--title", "t1", "--description", "d1", "--size", "small"]);
    assert!(err.contains("forbidden: create denied"));

    env.run_ok(&["board", "grant", "--user", "alice", "--board", "alpha", "--target", "bob", "--permissions", "read,create"]);

    let out = env.run_ok(&["task", "add", "--user", "bob", "--board", "alpha", "--title", "t1", "--description", "d1", "--size", "small"]);
    assert!(out.contains("created task 1"));

    let err = env.run_err(&["task", "edit", "--user", "bob", "--board", "alpha", "--task-id", "1", "--title", "new"]);
    assert!(err.contains("forbidden: update denied"));

    env.run_ok(&["board", "grant", "--user", "alice", "--board", "alpha", "--target", "bob", "--permissions", "read,create,update"]);

    let out = env.run_ok(&["task", "edit", "--user", "bob", "--board", "alpha", "--task-id", "1", "--title", "new"]);
    assert!(out.contains("updated task 1"));

    let err = env.run_err(&["task", "status", "--user", "bob", "--board", "alpha", "--task-id", "1", "--status", "completed", "--note", "done"]);
    assert!(err.contains("forbidden: set_status denied"));

    env.run_ok(&["board", "grant", "--user", "alice", "--board", "alpha", "--target", "bob", "--permissions", "read,create,update,set_status"]);

    let out = env.run_ok(&["task", "status", "--user", "bob", "--board", "alpha", "--task-id", "1", "--status", "completed", "--note", "done"]);
    assert!(out.contains("status updated"));

    let err = env.run_err(&["task", "delete", "--user", "bob", "--board", "alpha", "--task-id", "1"]);
    assert!(err.contains("forbidden: delete denied"));

    env.run_ok(&["board", "grant", "--user", "alice", "--board", "alpha", "--target", "bob", "--permissions", "read,create,update,set_status,delete"]);

    let out = env.run_ok(&["task", "delete", "--user", "bob", "--board", "alpha", "--task-id", "1"]);
    assert!(out.contains("deleted 1 row(s)"));

    let err = env.run_err(&["board", "grant", "--user", "bob", "--board", "alpha", "--target", "carol", "--permissions", "read"]);
    assert!(err.contains("forbidden: assign denied"));

    env.run_ok(&["board", "grant", "--user", "alice", "--board", "alpha", "--target", "bob", "--permissions", "read,assign"]);

    let out = env.run_ok(&["board", "grant", "--user", "bob", "--board", "alpha", "--target", "carol", "--permissions", "read"]);
    assert!(out.contains("granted"));
    assert!(out.contains("permissions: read"));

    let out = env.run_ok(&["board", "revoke", "--user", "bob", "--board", "alpha", "--target", "carol"]);
    assert!(out.contains("revoked 1 row(s)"));

    let err = env.run_err(&["board", "revoke", "--user", "bob", "--board", "alpha", "--target", "alice"]);
    assert!(err.contains("forbidden: cannot revoke board owner"));
}

#[test]
fn grant_normalizes_permission_order_and_deduplicates() {
    let mut env = TestEnv::new();

    env.run_ok(&["init", "--user", "alice"]);
    env.run_ok(&["user", "add", "--user", "alice", "--name", "bob"]);
    env.run_ok(&["board", "create", "--user", "alice", "--name", "alpha"]);

    let out = env.run_ok(&["board", "grant", "--user", "alice", "--board", "alpha", "--target", "bob", "--permissions", "delete,read,assign,read"]);

    assert!(out.contains("permissions: read,delete,assign"));
}

#[test]
fn delete_board_permission_gates_board_delete() {
    let mut env = TestEnv::new();

    env.run_ok(&["init", "--user", "alice"]);
    env.run_ok(&["user", "add", "--user", "alice", "--name", "bob"]);
    env.run_ok(&["board", "create", "--user", "alice", "--name", "alpha"]);

    env.run_ok(&["board", "grant", "--user", "alice", "--board", "alpha", "--target", "bob", "--permissions", "read"]);

    let err = env.run_err(&["board", "delete", "--user", "bob", "--board", "alpha"]);
    assert!(err.contains("forbidden: delete_board denied"));

    env.run_ok(&["board", "grant", "--user", "alice", "--board", "alpha", "--target", "bob", "--permissions", "read,delete_board"]);

    let out = env.run_ok(&["board", "delete", "--user", "bob", "--board", "alpha"]);
    assert!(out.contains("deleted 1 row(s)"));

    let out = env.run_ok(&["board", "list", "--user", "alice"]);
    assert!(!out.contains("alpha"));
}

#[test]
fn dependency_rules_are_enforced() {
    let mut env = TestEnv::new();

    env.run_ok(&["init", "--user", "alice"]);
    env.run_ok(&["board", "create", "--user", "alice", "--name", "alpha"]);

    env.run_ok(&["task", "add", "--user", "alice", "--board", "alpha", "--title", "t1", "--description", "d1", "--size", "small"]);
    env.run_ok(&["task", "add", "--user", "alice", "--board", "alpha", "--title", "t2", "--description", "d2", "--size", "small"]);
    env.run_ok(&["task", "add", "--user", "alice", "--board", "alpha", "--title", "t3", "--description", "d3", "--size", "small"]);

    env.run_ok(&["task", "edit", "--user", "alice", "--board", "alpha", "--task-id", "2", "--depends-on", "1"]);
    env.run_ok(&["task", "edit", "--user", "alice", "--board", "alpha", "--task-id", "3", "--depends-on", "2"]);

    let out = env.run_ok(&["task", "view", "--user", "alice", "--board", "alpha", "--task-id", "3"]);
    assert!(out.contains("dependsOn: [2]"));

    let err = env.run_err(&["task", "edit", "--user", "alice", "--board", "alpha", "--task-id", "1", "--depends-on", "3"]);
    assert!(err.contains("dependency: cycle detected"));

    let err = env.run_err(&["task", "edit", "--user", "alice", "--board", "alpha", "--task-id", "1", "--depends-on", "1"]);
    assert!(err.contains("dependency: self dependency is not allowed"));

    let err = env.run_err(&["task", "edit", "--user", "alice", "--board", "alpha", "--task-id", "1", "--depends-on", "999"]);
    assert!(err.contains("dependency: task 999 not in board 1"));

    env.run_ok(&["board", "create", "--user", "alice", "--name", "beta"]);
    env.run_ok(&["task", "add", "--user", "alice", "--board", "beta", "--title", "other", "--description", "other", "--size", "small"]);

    let err = env.run_err(&["task", "edit", "--user", "alice", "--board", "alpha", "--task-id", "1", "--depends-on", "4"]);
    assert!(err.contains("dependency: task 4 not in board 1"));

    env.run_ok(&["task", "edit", "--user", "alice", "--board", "alpha", "--task-id", "3", "--clear-depends-on"]);

    let out = env.run_ok(&["task", "view", "--user", "alice", "--board", "alpha", "--task-id", "3"]);
    assert!(out.contains("dependsOn: []"));
}

#[test]
fn task_parent_and_input_validation_are_enforced() {
    let mut env = TestEnv::new();

    env.run_ok(&["init", "--user", "alice"]);
    env.run_ok(&["board", "create", "--user", "alice", "--name", "alpha"]);

    let err = env.run_err(&["task", "add", "--user", "alice", "--board", "alpha", "--title", "t1", "--description", "d1", "--size", "small", "--parent", "42"]);
    assert!(err.contains("dependency: task 42 not in board 1"));

    env.run_ok(&["board", "create", "--user", "alice", "--name", "beta"]);
    env.run_ok(&["task", "add", "--user", "alice", "--board", "beta", "--title", "tb", "--description", "db", "--size", "small"]);

    let err = env.run_err(&["task", "add", "--user", "alice", "--board", "alpha", "--title", "ta", "--description", "da", "--size", "small", "--parent", "1"]);
    assert!(err.contains("dependency: task 1 not in board 1"));

    let err = env.run_err(&["task", "add", "--user", "alice", "--board", "alpha", "--title", "x", "--description", "x", "--size", "small", "--depends-on", "a,2"]);
    assert!(err.contains("input: invalid task id 'a'"));
}

#[test]
fn status_transitions_require_completed_dependencies_and_required_notes() {
    let mut env = TestEnv::new();

    env.run_ok(&["init", "--user", "alice"]);
    env.run_ok(&["board", "create", "--user", "alice", "--name", "alpha"]);

    env.run_ok(&["task", "add", "--user", "alice", "--board", "alpha", "--title", "t1", "--description", "base", "--size", "small"]);
    env.run_ok(&["task", "add", "--user", "alice", "--board", "alpha", "--title", "t2", "--description", "dependent", "--size", "small", "--depends-on", "1"]);

    let err = env.run_err(&["task", "status", "--user", "alice", "--board", "alpha", "--task-id", "2", "--status", "in_progress"]);
    assert!(err.contains("cannot move to in_progress because dependency 1 is pending"));

    let out = env.run_ok(&["task", "status", "--user", "alice", "--board", "alpha", "--task-id", "1", "--status", "in_progress"]);
    assert!(out.contains("status updated"));

    let err = env.run_err(&["task", "status", "--user", "alice", "--board", "alpha", "--task-id", "1", "--status", "completed"]);
    assert!(err.contains("--note is required when status is completed"));

    env.run_ok(&["task", "status", "--user", "alice", "--board", "alpha", "--task-id", "1", "--status", "completed", "--note", "done"]);

    env.run_ok(&["task", "status", "--user", "alice", "--board", "alpha", "--task-id", "2", "--status", "in_progress", "--note", "started"]);

    let err = env.run_err(&["task", "status", "--user", "alice", "--board", "alpha", "--task-id", "2", "--status", "blocked"]);
    assert!(err.contains("--note is required when status is blocked"));

    env.run_ok(&["task", "status", "--user", "alice", "--board", "alpha", "--task-id", "2", "--status", "blocked", "--note", "waiting for upstream"]);

    let out = env.run_ok(&["task", "view", "--user", "alice", "--board", "alpha", "--task-id", "2"]);
    assert!(out.contains("postNotes:"));
    assert!(out.contains("started"));
    assert!(out.contains("waiting for upstream"));
}

#[test]
fn large_tasks_are_auto_managed_from_children() {
    let mut env = TestEnv::new();

    env.run_ok(&["init", "--user", "alice"]);
    env.run_ok(&["board", "create", "--user", "alice", "--name", "alpha"]);

    env.run_ok(&["task", "add", "--user", "alice", "--board", "alpha", "--title", "epic", "--description", "parent", "--size", "large"]);
    env.run_ok(&["task", "add", "--user", "alice", "--board", "alpha", "--title", "slice-a", "--description", "a", "--size", "small", "--parent", "1"]);
    env.run_ok(&["task", "add", "--user", "alice", "--board", "alpha", "--title", "slice-b", "--description", "b", "--size", "small", "--parent", "1"]);

    let out = env.run_ok(&["task", "view", "--user", "alice", "--board", "alpha", "--task-id", "1"]);
    assert!(out.contains("dependsOn: [2, 3]"));

    let err = env.run_err(&["task", "edit", "--user", "alice", "--board", "alpha", "--task-id", "1", "--depends-on", "2"]);
    assert!(err.contains("large task dependencies are managed by children"));

    let err = env.run_err(&["task", "status", "--user", "alice", "--board", "alpha", "--task-id", "1", "--status", "completed", "--note", "manual"]);
    assert!(err.contains("large task status is derived from children"));

    env.run_ok(&["task", "status", "--user", "alice", "--board", "alpha", "--task-id", "2", "--status", "completed", "--note", "done a"]);

    let out = env.run_ok(&["task", "view", "--user", "alice", "--board", "alpha", "--task-id", "1"]);
    assert!(out.contains("status: in_progress"));
    assert!(out.contains("auto-updated status"));

    env.run_ok(&["task", "status", "--user", "alice", "--board", "alpha", "--task-id", "3", "--status", "blocked", "--note", "blocked b"]);

    let out = env.run_ok(&["task", "view", "--user", "alice", "--board", "alpha", "--task-id", "1"]);
    assert!(out.contains("status: blocked"));

    env.run_ok(&["task", "status", "--user", "alice", "--board", "alpha", "--task-id", "3", "--status", "completed", "--note", "done b"]);

    let out = env.run_ok(&["task", "view", "--user", "alice", "--board", "alpha", "--task-id", "1"]);
    assert!(out.contains("status: completed"));

    env.run_ok(&["task", "delete", "--user", "alice", "--board", "alpha", "--task-id", "2"]);

    let out = env.run_ok(&["task", "view", "--user", "alice", "--board", "alpha", "--task-id", "1"]);
    assert!(out.contains("dependsOn: [3]"));
}

#[test]
fn large_to_non_large_keeps_dependencies() {
    let mut env = TestEnv::new();

    env.run_ok(&["init", "--user", "alice"]);
    env.run_ok(&["board", "create", "--user", "alice", "--name", "alpha"]);

    env.run_ok(&["task", "add", "--user", "alice", "--board", "alpha", "--title", "epic", "--description", "parent", "--size", "large"]);
    env.run_ok(&["task", "add", "--user", "alice", "--board", "alpha", "--title", "slice-a", "--description", "a", "--size", "small", "--parent", "1"]);
    env.run_ok(&["task", "add", "--user", "alice", "--board", "alpha", "--title", "slice-b", "--description", "b", "--size", "small", "--parent", "1"]);

    env.run_ok(&["task", "edit", "--user", "alice", "--board", "alpha", "--task-id", "1", "--size", "medium"]);

    let out = env.run_ok(&["task", "view", "--user", "alice", "--board", "alpha", "--task-id", "1"]);
    assert!(out.contains("size: medium"));
    assert!(out.contains("dependsOn: [2, 3]"));
}

#[test]
fn parent_self_and_cycle_are_rejected() {
    let mut env = TestEnv::new();

    env.run_ok(&["init", "--user", "alice"]);
    env.run_ok(&["board", "create", "--user", "alice", "--name", "alpha"]);

    env.run_ok(&["task", "add", "--user", "alice", "--board", "alpha", "--title", "a", "--description", "a", "--size", "small"]);
    env.run_ok(&["task", "add", "--user", "alice", "--board", "alpha", "--title", "b", "--description", "b", "--size", "small"]);

    let err = env.run_err(&["task", "edit", "--user", "alice", "--board", "alpha", "--task-id", "1", "--parent", "1"]);
    assert!(err.contains("self parent is not allowed"));

    env.run_ok(&["task", "edit", "--user", "alice", "--board", "alpha", "--task-id", "2", "--parent", "1"]);

    let err = env.run_err(&["task", "edit", "--user", "alice", "--board", "alpha", "--task-id", "1", "--parent", "2"]);
    assert!(err.contains("parent cycle detected"));
}

#[test]
fn list_can_filter_by_size() {
    let mut env = TestEnv::new();

    env.run_ok(&["init", "--user", "alice"]);
    env.run_ok(&["board", "create", "--user", "alice", "--name", "alpha"]);
    env.run_ok(&["task", "add", "--user", "alice", "--board", "alpha", "--title", "small-task", "--description", "s", "--size", "small"]);
    env.run_ok(&["task", "add", "--user", "alice", "--board", "alpha", "--title", "medium-task", "--description", "m", "--size", "medium"]);

    let out = env.run_ok(&["task", "list", "--user", "alice", "--board", "alpha", "--size", "medium"]);
    assert!(out.contains("medium-task"));
    assert!(!out.contains("small-task"));
}

#[test]
fn depends_on_is_read_before_anything_else() {
    let mut env = TestEnv::new();
    let err = env.run_err(&["task", "add", "--user", "ghost", "--board", "nowhere", "--title", "x", "--description", "x", "--size", "small", "--depends-on", "1,b"]);
    assert!(err.contains("input: invalid task id 'b'"));
    let err = env.run_err(&["task", "add", "--user", "ghost", "--board", "nowhere", "--title", "x", "--description", "x", "--size", "small"]);
    assert!(err.contains("auth: user 'ghost' not found"));
}


#[test]
fn user_and_board_names_stay_unique() {
    let mut env = TestEnv::new();
    env.run_ok(&["init", "--user", "alice"]);
    env.run_ok(&["init", "--user", "alice"]);
    env.run_ok(&["user", "add", "--user", "alice", "--name", "alice"]);
    env.run_ok(&["user", "add", "--user", "alice", "--name", "bob"]);
    env.run_ok(&["board", "create", "--user", "alice", "--name", "alpha"]);
    let err = env.run_err(&["board", "create", "--user", "bob", "--name", "alpha"]);
    assert!(err.contains("UNIQUE constraint failed: boards.name"));
    env.run_ok(&["board", "grant", "--user", "alice", "--board", "alpha", "--target", "bob", "--permissions", "read"]);
    env.run_ok(&["task", "add", "--user", "alice", "--board", "alpha", "--title", "t", "--description", "d", "--size", "small", "--assignee", "bob"]);
    env.run_ok(&["task", "edit", "--user", "alice", "--board", "alpha", "--task-id", "1", "--assignee", "carol"]);
    env.run_ok(&["task", "edit", "--user", "alice", "--board", "alpha", "--task-id", "1", "--assignee", "carol"]);
    let names: Vec<String> = env.db.users.iter().map(|u| u.name.clone()).collect();
    assert_eq!(names, vec!["alice".to_string(), "bob".to_string(), "carol".to_string()]);
    assert_eq!(env.db.boards.len(), 1);
}
