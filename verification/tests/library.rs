//! Exact outputs and error texts of the board operations.
use blackboard::board::{
    cmd_board_create, cmd_board_delete, cmd_board_grant, cmd_board_list, cmd_board_members,
    cmd_board_view,
};
use blackboard::cli::{grant_action_names, BoardCmd, Cmd, PermissionArg, SizeArg, StatusArg, TaskCmd, UserCmd};
use blackboard::error::CmdError;
use blackboard::graph::has_path;
use blackboard::poll::{poll_observe, poll_start, poll_step, PollAction};
use blackboard::auth::require;
use blackboard::store::{Board, Db, Dependency, Member, Outcome, Permission, User};
use blackboard::task::{derive_large_status, ensure_parent_assignment, normalize_note};
use blackboard::task_cmd::{
    cmd_task_add, cmd_task_delete, cmd_task_edit, cmd_task_list, cmd_task_status, cmd_task_view,
    get_task,
};
use blackboard::user::{cmd_init, cmd_user_add, cmd_user_list, cmd_user_remove, get_user_id};
use std::collections::HashMap;

fn s(v: &str) -> String {
    v.to_string()
}

fn lines(r: Result<Outcome, CmdError>) -> Vec<String> {
    match r {
        Ok(out) => out.lines,
        Err(e) => panic!("unexpected error: {}", e.to_string()),
    }
}

fn error(r: Result<Outcome, CmdError>) -> String {
    match r {
        Ok(out) => panic!("unexpected success: {:?}", out.lines),
        Err(e) => e.to_string(),
    }
}

/// alice owns board alpha (id 1).
fn setup() -> Db {
    let mut db = Db::new();
    lines(cmd_init(&mut db, &s("alice")));
    lines(cmd_board_create(&mut db, &s("alice"), &s("alpha"), 100));
    db
}

fn add(db: &mut Db, title: &str, size: SizeArg, parent: Option<i64>, deps: Option<Vec<i64>>) -> Vec<String> {
    lines(cmd_task_add(
        db,
        &s("alice"),
        &s("alpha"),
        &s(title),
        &s("d"),
        &s(size.as_str()),
        parent,
        None,
        deps,
        200,
    ))
}

fn view(db: &Db, id: i64) -> Vec<String> {
    lines(cmd_task_view(db, &s("alice"), &s("alpha"), id))
}

fn status(db: &mut Db, id: i64, st: StatusArg, note: Option<&str>) -> Result<Outcome, CmdError> {
    cmd_task_status(db, &s("alice"), &s("alpha"), id, st, note.map(s), 300)
}

#[test]
fn init_reports_user_and_id_once() {
    let mut db = Db::new();
    assert_eq!(lines(cmd_init(&mut db, &s("alice"))), vec![s("initialized user alice (1)")]);
    assert_eq!(lines(cmd_init(&mut db, &s("alice"))), vec![s("initialized user alice (1)")]);
    assert_eq!(lines(cmd_user_add(&mut db, &s("alice"), &s("bob"))), vec![s("added user bob (2)")]);
    assert_eq!(db.users.len(), 2);
}

#[test]
fn unknown_actor_is_an_auth_error() {
    let mut db = setup();
    assert_eq!(error(cmd_board_list(&db, &s("ghost"))), "auth: user 'ghost' not found");
    assert_eq!(error(cmd_user_add(&mut db, &s("ghost"), &s("x"))), "auth: user 'ghost' not found");
    assert!(get_user_id(&db, &s("ghost")).is_err());
}

#[test]
fn user_list_is_padded_under_a_header() {
    let mut db = setup();
    lines(cmd_user_add(&mut db, &s("alice"), &s("bob")));
    assert_eq!(
        lines(cmd_user_list(&db, &s("alice"))),
        vec![s("ID   NAME"), s("1    alice"), s("2    bob")]
    );
}

#[test]
fn removing_a_board_owner_is_a_foreign_key_error() {
    let mut db = setup();
    assert_eq!(error(cmd_user_remove(&mut db, &s("alice"), &s("alice"))), "FOREIGN KEY constraint failed");
    lines(cmd_user_add(&mut db, &s("alice"), &s("bob")));
    assert_eq!(lines(cmd_user_remove(&mut db, &s("alice"), &s("bob"))), vec![s("removed 1 row(s)")]);
}

#[test]
fn board_names_are_unique_and_selectors_checked() {
    let mut db = setup();
    assert_eq!(
        error(cmd_board_create(&mut db, &s("alice"), &s("alpha"), 5)),
        "UNIQUE constraint failed: boards.name"
    );
    assert_eq!(
        error(cmd_board_view(&db, &s("alice"), &s("nope"))),
        "input: board selector must be board name or id"
    );
    assert_eq!(error(cmd_board_view(&db, &s("alice"), &s("7"))), "not_found: board not found");
    assert_eq!(
        lines(cmd_board_view(&db, &s("alice"), &s("1")))[0],
        "board alpha (id=1) owner=alice created=100"
    );
}

#[test]
fn grant_with_no_permissions_gives_read() {
    let mut db = setup();
    let actions = grant_action_names(&Vec::new());
    assert_eq!(actions, vec![s("read")]);
    let out = lines(cmd_board_grant(&mut db, &s("alice"), &s("alpha"), &s("bob"), &actions));
    assert_eq!(out, vec![s("granted"), s("permissions: read")]);
    let again = grant_action_names(&vec![PermissionArg::Assign, PermissionArg::Read]);
    let out = lines(cmd_board_grant(&mut db, &s("alice"), &s("alpha"), &s("bob"), &again));
    assert_eq!(out, vec![s("updated permissions"), s("permissions: read,assign")]);
    let members = lines(cmd_board_members(&db, &s("alice"), &s("alpha")));
    assert_eq!(members, vec![s("members:"), s("  alice [owner] perms=all"), s("  bob [member] perms=read,assign")]);
    let owner = lines(cmd_board_grant(&mut db, &s("alice"), &s("alpha"), &s("alice"), &again));
    assert_eq!(owner, vec![s("already owner")]);
}

#[test]
fn task_list_prints_padded_columns() {
    let mut db = setup();
    add(&mut db, "first", SizeArg::Small, None, None);
    add(&mut db, "second", SizeArg::Medium, None, Some(vec![1, 1]));
    let out = lines(cmd_task_list(&db, &s("alice"), &s("alpha"), None, None, None, None));
    assert_eq!(out[0], "ID   STATUS       SIZE     PARENT  ASSIGNEE     dependsOn    TITLE");
    assert_eq!(out[1], "1    pending      small    -       -            []           first");
    assert_eq!(out[2], "2    pending      medium   -       -            [1]          second");
    let filtered = lines(cmd_task_list(
        &db,
        &s("alice"),
        &s("alpha"),
        Some(s(StatusArg::Completed.as_str())),
        None,
        None,
        None,
    ));
    assert_eq!(filtered.len(), 1);
    assert_eq!(
        error(cmd_task_list(&db, &s("alice"), &s("alpha"), None, None, None, Some(s("zed")))),
        "auth: user 'zed' not found"
    );
}

#[test]
fn task_view_shows_every_field_and_notes() {
    let mut db = setup();
    add(&mut db, "t1", SizeArg::Small, None, None);
    assert_eq!(
        view(&db, 1),
        vec![
            s("id: 1"),
            s("title: t1"),
            s("description: d"),
            s("size: small"),
            s("status: pending"),
            s("parent: None"),
            s("assignee: -"),
            s("dependsOn: []"),
            s("postNotes:"),
            s("  - (none)"),
        ]
    );
    lines(status(&mut db, 1, StatusArg::Blocked, Some("  waiting  ")));
    let v = view(&db, 1);
    assert_eq!(v[4], "status: blocked");
    assert_eq!(v[9], "  - [300] status=blocked author=alice waiting");
    assert_eq!(error(cmd_task_view(&db, &s("alice"), &s("alpha"), 9)), "not_found: task not found in board");
}

#[test]
fn note_checks_come_in_order() {
    let mut db = setup();
    add(&mut db, "t1", SizeArg::Small, None, None);
    assert_eq!(error(status(&mut db, 1, StatusArg::Completed, Some("   "))), "input: --note cannot be empty");
    assert_eq!(
        error(status(&mut db, 1, StatusArg::Completed, None)),
        "input: --note is required when status is completed"
    );
    assert_eq!(error(normalize_note(Some(s("\t"))).map(|_| Outcome { lines: Vec::new() })), "input: --note cannot be empty");
}

#[test]
fn large_task_status_follows_nested_children() {
    let mut db = setup();
    add(&mut db, "epic", SizeArg::Large, None, None);
    add(&mut db, "story", SizeArg::Large, Some(1), None);
    add(&mut db, "leaf", SizeArg::Small, Some(2), None);
    assert_eq!(view(&db, 1)[7], "dependsOn: [2]");
    assert_eq!(view(&db, 2)[7], "dependsOn: [3]");
    lines(status(&mut db, 3, StatusArg::InProgress, None));
    assert_eq!(view(&db, 2)[4], "status: in_progress");
    assert_eq!(view(&db, 1)[4], "status: in_progress");
    assert_eq!(
        view(&db, 1)[9],
        "  - [300] status=in_progress author=system system: auto-updated status from 'pending' to 'in_progress' based on child task states"
    );
    assert_eq!(
        error(status(&mut db, 2, StatusArg::InProgress, None)),
        "status: large task status is derived from children and cannot be set to in_progress/completed manually"
    );
    assert_eq!(derive_large_status(&db, 1, 3).as_str(), "pending");
}

#[test]
fn deleting_a_task_removes_its_subtasks() {
    let mut db = setup();
    add(&mut db, "epic", SizeArg::Large, None, None);
    add(&mut db, "a", SizeArg::Small, Some(1), None);
    add(&mut db, "b", SizeArg::Small, Some(2), None);
    add(&mut db, "c", SizeArg::Small, None, Some(vec![3]));
    let out = lines(cmd_task_delete(&mut db, &s("alice"), &s("alpha"), 2, 400));
    assert_eq!(out, vec![s("deleted 1 row(s)")]);
    assert_eq!(db.tasks.len(), 2);
    assert!(get_task(&db, 1, 3).is_err());
    assert_eq!(view(&db, 4)[7], "dependsOn: []");
    assert_eq!(view(&db, 1)[7], "dependsOn: []");
    assert_eq!(view(&db, 1)[4], "status: pending");
}

#[test]
fn deleted_task_is_no_longer_viewed() {
    let mut db = setup();
    add(&mut db, "a", SizeArg::Small, None, None);
    add(&mut db, "b", SizeArg::Small, Some(1), None);
    lines(cmd_task_delete(&mut db, &s("alice"), &s("alpha"), 1, 400));
    for id in [1, 2] {
        let seen = cmd_task_view(&db, &s("alice"), &s("alpha"), id);
        assert_eq!(error(seen), "not_found: task not found in board");
    }
}

#[test]
fn deleted_board_is_no_longer_found() {
    let mut db = setup();
    add(&mut db, "a", SizeArg::Small, None, None);
    let out = lines(cmd_board_delete(&mut db, &s("alice"), &s("alpha")));
    assert_eq!(out, vec![s("deleted 1 row(s)")]);
    assert!(db.tasks.is_empty());
    assert!(db.members.is_empty());
    assert_eq!(
        error(cmd_board_view(&db, &s("alice"), &s("alpha"))),
        "input: board selector must be board name or id"
    );
    assert_eq!(error(cmd_board_view(&db, &s("alice"), &s("1"))), "not_found: board not found");
}

#[test]
fn task_add_checks_its_dependency_list() {
    let mut db = setup();
    add(&mut db, "a", SizeArg::Small, None, None);
    let add_with = |db: &mut Db, deps: Vec<i64>| {
        cmd_task_add(db, &s("alice"), &s("alpha"), &s("t"), &s("d"), &s("small"), None, None, Some(deps), 200)
    };
    assert_eq!(error(add_with(&mut db, vec![1, 999])), "dependency: task 999 not in board 1");
    assert_eq!(error(add_with(&mut db, vec![2])), "dependency: self dependency is not allowed");
    assert_eq!(db.tasks.len(), 1);
    assert_eq!(lines(add_with(&mut db, vec![1, 1])), vec![s("created task 2")]);
    assert_eq!(view(&db, 2)[7], "dependsOn: [1]");
}

#[test]
fn blocked_move_names_the_smallest_open_dependency() {
    let mut db = setup();
    add(&mut db, "a", SizeArg::Small, None, None);
    add(&mut db, "b", SizeArg::Small, None, None);
    add(&mut db, "c", SizeArg::Small, None, None);
    db.dependencies.push(Dependency { task_id: 3, depends_on: 2 });
    db.dependencies.push(Dependency { task_id: 3, depends_on: 1 });
    assert_eq!(
        error(status(&mut db, 3, StatusArg::InProgress, None)),
        "dependency: task 3 cannot move to in_progress because dependency 1 is pending"
    );
}

#[test]
fn dependency_cycles_of_any_length_are_refused() {
    let mut db = setup();
    add(&mut db, "a", SizeArg::Small, None, None);
    add(&mut db, "b", SizeArg::Small, None, Some(vec![1]));
    add(&mut db, "c", SizeArg::Small, None, Some(vec![2]));
    add(&mut db, "d", SizeArg::Small, None, Some(vec![3]));
    let r = cmd_task_edit(&mut db, &s("alice"), &s("alpha"), 1, None, None, None, None, None, Some(vec![4]), 9);
    assert_eq!(error(r), "dependency: cycle detected");
    let mut g: HashMap<i64, Vec<i64>> = HashMap::new();
    g.insert(1, vec![2]);
    g.insert(2, vec![3]);
    assert!(has_path(&g, 1, 3));
    assert!(!has_path(&g, 3, 1));
    assert!(has_path(&g, 5, 5));
}

#[test]
fn edit_changes_only_given_fields_and_assignees() {
    let mut db = setup();
    add(&mut db, "t1", SizeArg::Small, None, None);
    let r = cmd_task_edit(&mut db, &s("alice"), &s("alpha"), 1, None, Some(s("new d")), None, None, Some(s("carol")), None, 9);
    assert_eq!(lines(r), vec![s("updated task 1")]);
    let v = view(&db, 1);
    assert_eq!(v[1], "title: t1");
    assert_eq!(v[2], "description: new d");
    assert_eq!(v[6], "assignee: carol");
    assert!(get_user_id(&db, &s("carol")).is_ok());
    let r = cmd_task_edit(&mut db, &s("alice"), &s("alpha"), 1, None, None, None, None, Some(s("  ")), None, 10);
    lines(r);
    assert_eq!(view(&db, 1)[6], "assignee: -");
    assert!(ensure_parent_assignment(&db, 1, 1, Some(1)).is_err());
    assert!(ensure_parent_assignment(&db, 1, 1, None).is_ok());
}

#[test]
fn polling_reports_updates_and_idle_periods() {
    let mut db = setup();
    let start = poll_start(&db, &s("alice"), &s("alpha"), 1, 30).expect("start");
    assert_eq!(start.line.as_str(), "polling board alpha (id=1) every 1s (idle notice 30s)");
    assert_eq!(
        error(poll_start(&db, &s("alice"), &s("alpha"), 0, 30).map(|_| Outcome { lines: Vec::new() })),
        "input: --interval must be >= 1"
    );
    let before = poll_observe(&db, start.actor_id, start.board_id).expect("observe");
    let same = poll_observe(&db, start.actor_id, start.board_id).expect("observe");
    assert!(matches!(poll_step(&before, &same, 5, 30), PollAction::Quiet));
    match poll_step(&before, &same, 30, 30) {
        PollAction::Idle(l) => assert_eq!(l.as_str(), "no update in last 30s"),
        _ => panic!("expected idle"),
    }
    add(&mut db, "t", SizeArg::Small, None, None);
    let after = poll_observe(&db, start.actor_id, start.board_id).expect("observe");
    match poll_step(&before, &after, 1, 30) {
        PollAction::Update(l) => assert!(l.as_str().starts_with("update detected:")),
        _ => panic!("expected update"),
    }
}

#[test]
fn rare_errors_have_their_texts() {
    let mut db = setup();
    lines(cmd_user_add(&mut db, &s("alice"), &s("bob")));
    assert_eq!(
        error(cmd_board_grant(&mut db, &s("alice"), &s("alpha"), &s("bob"), &Vec::new())),
        "input: at least one permission is required"
    );
    let bob = get_user_id(&db, &s("bob")).expect("bob");
    let r = require(&db, bob, 1, "bogus").map(|_| Outcome { lines: Vec::new() });
    assert_eq!(error(r), "system: unknown action 'bogus'");
    let r = require(&db, 1, 1, "bogus");
    assert!(r.is_ok());

    let mut orphan = Db::new();
    orphan.users.push(User { id: 5, name: s("eve") });
    orphan.boards.push(Board { id: 1, name: s("lost"), owner_id: 99, created_at: 0 });
    orphan.members.push(Member { board_id: 1, user_id: 5 });
    orphan.permissions.push(Permission { board_id: 1, user_id: 5, action: s("read") });
    assert_eq!(error(cmd_board_view(&orphan, &s("eve"), &s("lost"))), "Query returned no rows");

    let mut full = Db::new();
    full.users.push(User { id: i64::MAX, name: s("last") });
    assert_eq!(error(cmd_user_add(&mut full, &s("last"), &s("next"))), "database or disk is full");
    assert_eq!(full.users.len(), 1);
}

#[test]
fn revoked_member_is_denied_every_action() {
    let mut db = setup();
    let all = vec![s("read"), s("create"), s("update")];
    lines(cmd_board_grant(&mut db, &s("alice"), &s("alpha"), &s("bob"), &all));
    lines(blackboard::board::cmd_board_revoke(&mut db, &s("alice"), &s("alpha"), &s("bob")));
    for action in ["read", "create", "update", "delete", "set_status", "assign", "delete_board"] {
        let bob = get_user_id(&db, &s("bob")).expect("bob");
        assert!(blackboard::auth::require(&db, bob, 1, action).is_err());
        assert!(blackboard::auth::require(&db, 1, 1, action).is_ok());
    }
}

#[test]
fn deleting_a_board_removes_its_rows() {
    let mut db = setup();
    add(&mut db, "t1", SizeArg::Small, None, None);
    add(&mut db, "t2", SizeArg::Small, Some(1), Some(vec![1]));
    lines(status(&mut db, 2, StatusArg::Blocked, Some("wait")));
    lines(cmd_board_grant(&mut db, &s("alice"), &s("alpha"), &s("bob"), &vec![s("read")]));
    assert_eq!(lines(cmd_board_delete(&mut db, &s("alice"), &s("alpha"))), vec![s("deleted 1 row(s)")]);
    assert_eq!(db.boards.len(), 0);
    assert_eq!(db.tasks.len(), 0);
    assert_eq!(db.dependencies.len(), 0);
    assert_eq!(db.notes.len(), 0);
    assert_eq!(db.members.len(), 0);
    assert_eq!(db.permissions.len(), 0);
    assert_eq!(db.users.len(), 2);
}

#[test]
fn only_listing_commands_read_only() {
    assert!(blackboard::commands::reads_only(&Cmd::User(UserCmd::List { user: s("a") })));
    assert!(blackboard::commands::reads_only(&Cmd::Task(TaskCmd::View { user: s("a"), board: s("b"), task_id: 1 })));
    assert!(!blackboard::commands::reads_only(&Cmd::Board(BoardCmd::Delete { user: s("a"), board: s("b") })));
    assert!(!blackboard::commands::reads_only(&Cmd::Init { user: s("a") }));
}

#[test]
fn status_and_delete_under_a_large_task_resync_it() {
    let mut db = setup();
    add(&mut db, "epic", SizeArg::Large, None, None);
    add(&mut db, "a", SizeArg::Small, Some(1), None);
    add(&mut db, "b", SizeArg::Small, Some(1), None);
    add(&mut db, "other", SizeArg::Small, None, None);
    assert_eq!(view(&db, 1)[7], "dependsOn: [2, 3]");
    lines(status(&mut db, 2, StatusArg::Completed, Some("done")));
    assert_eq!(view(&db, 1)[4], "status: in_progress");
    assert_eq!(view(&db, 4)[4], "status: pending");
    let out = lines(cmd_task_delete(&mut db, &s("alice"), &s("alpha"), 2, 400));
    assert_eq!(out, vec![s("deleted 1 row(s)")]);
    assert_eq!(view(&db, 1)[7], "dependsOn: [3]");
    assert_eq!(view(&db, 1)[4], "status: pending");
    assert_eq!(view(&db, 4)[4], "status: pending");
}

#[test]
fn edit_under_a_large_task_keeps_it_in_step() {
    let mut db = setup();
    add(&mut db, "epic", SizeArg::Large, None, None);
    add(&mut db, "a", SizeArg::Small, Some(1), None);
    add(&mut db, "b", SizeArg::Small, None, None);
    lines(cmd_task_edit(&mut db, &s("alice"), &s("alpha"), 3, Some(s("b2")), None, None, Some(1), None, None, 500));
    assert_eq!(view(&db, 1)[7], "dependsOn: [2, 3]");
    lines(cmd_task_edit(&mut db, &s("alice"), &s("alpha"), 2, None, None, None, None, None, Some(vec![3]), 510));
    assert_eq!(view(&db, 2)[7], "dependsOn: [3]");
    assert_eq!(view(&db, 1)[7], "dependsOn: [2, 3]");
}

#[test]
fn edit_reports_board_selector_errors() {
    let mut db = setup();
    add(&mut db, "a", SizeArg::Small, None, None);
    let bad = cmd_task_edit(&mut db, &s("alice"), &s("nope"), 1, Some(s("x")), None, None, None, None, None, 500);
    assert_eq!(error(bad), "input: board selector must be board name or id");
    let missing = cmd_task_edit(&mut db, &s("alice"), &s("9"), 1, Some(s("x")), None, None, None, None, None, 500);
    assert_eq!(error(missing), "not_found: board not found");
}

#[test]
fn revoke_counts_the_membership_row() {
    let mut db = setup();
    lines(cmd_board_grant(&mut db, &s("alice"), &s("alpha"), &s("bob"), &vec![s("read")]));
    lines(cmd_user_add(&mut db, &s("alice"), &s("carol")));
    let first = lines(blackboard::board::cmd_board_revoke(&mut db, &s("alice"), &s("alpha"), &s("bob")));
    assert_eq!(first, vec![s("revoked 1 row(s)")]);
    let again = lines(blackboard::board::cmd_board_revoke(&mut db, &s("alice"), &s("alpha"), &s("bob")));
    assert_eq!(again, vec![s("revoked 0 row(s)")]);
    let never = lines(blackboard::board::cmd_board_revoke(&mut db, &s("alice"), &s("alpha"), &s("carol")));
    assert_eq!(never, vec![s("revoked 0 row(s)")]);
}

#[test]
fn board_list_follows_board_ids() {
    let mut db = setup();
    lines(cmd_board_create(&mut db, &s("alice"), &s("beta"), 101));
    lines(cmd_board_create(&mut db, &s("alice"), &s("aardvark"), 102));
    let out = lines(cmd_board_list(&db, &s("alice")));
    assert_eq!(out.len(), 4);
    assert!(out[1].starts_with("1 "));
    assert!(out[2].starts_with("2 "));
    assert!(out[3].starts_with("3 "));
}

#[test]
fn removing_a_user_keeps_other_memberships() {
    let mut db = setup();
    lines(cmd_board_grant(&mut db, &s("alice"), &s("alpha"), &s("bob"), &vec![s("read")]));
    lines(cmd_board_grant(&mut db, &s("alice"), &s("alpha"), &s("carol"), &vec![s("update")]));
    let out = lines(cmd_user_remove(&mut db, &s("alice"), &s("bob")));
    assert_eq!(out, vec![s("removed 1 row(s)")]);
    assert_eq!(db.members.len(), 1);
    assert_eq!(db.permissions.len(), 1);
    let members = lines(cmd_board_members(&db, &s("alice"), &s("alpha")));
    assert_eq!(members, vec![s("members:"), s("  alice [owner] perms=all"), s("  carol [member] perms=update")]);
}

#[test]
fn edit_to_large_under_a_large_task_follows_children() {
    let mut db = setup();
    add(&mut db, "epic", SizeArg::Large, None, None);
    add(&mut db, "story", SizeArg::Small, Some(1), None);
    add(&mut db, "leaf", SizeArg::Small, Some(2), None);
    lines(status(&mut db, 3, StatusArg::InProgress, None));
    let out = cmd_task_edit(&mut db, &s("alice"), &s("alpha"), 2, None, None, Some(s("large")), None, None, None, 600);
    assert_eq!(lines(out), vec![s("updated task 2")]);
    assert_eq!(view(&db, 2)[7], "dependsOn: [3]");
    assert_eq!(view(&db, 2)[4], "status: in_progress");
    assert_eq!(view(&db, 1)[7], "dependsOn: [2]");
    assert_eq!(view(&db, 1)[4], "status: in_progress");
}

#[test]
fn edit_keeps_status_and_stamps_the_editor() {
    let mut db = setup();
    add(&mut db, "t1", SizeArg::Small, None, None);
    lines(status(&mut db, 1, StatusArg::InProgress, None));
    let created_at = db.tasks[0].created_at;
    let r = cmd_task_edit(&mut db, &s("alice"), &s("alpha"), 1, Some(s("t2")), None, None, None, None, None, 777);
    assert_eq!(lines(r), vec![s("updated task 1")]);
    assert_eq!(db.tasks[0].status, "in_progress");
    assert_eq!(db.tasks[0].updated_by, Some(1));
    assert_eq!(db.tasks[0].updated_at, 777);
    assert_eq!(db.tasks[0].created_at, created_at);
    assert_eq!(db.tasks[0].created_by, Some(1));
}

#[test]
fn added_task_changes_the_board_snapshot() {
    let mut db = setup();
    let before = blackboard::poll::capture_board_snapshot(&db, 1).expect("snapshot");
    add(&mut db, "t1", SizeArg::Small, None, None);
    let after = blackboard::poll::capture_board_snapshot(&db, 1).expect("snapshot");
    assert_eq!(after.task_count, before.task_count + 1);
    assert!(!blackboard::poll::same_snapshot(&before, &after));
    assert_eq!(db.tasks[0].updated_by, Some(1));
    assert_eq!(db.tasks[0].updated_at, 200);
}

#[test]
fn moving_a_task_between_large_tasks_resyncs_both() {
    let mut db = setup();
    add(&mut db, "epic one", SizeArg::Large, None, None);
    add(&mut db, "epic two", SizeArg::Large, None, None);
    add(&mut db, "a", SizeArg::Small, Some(1), None);
    lines(status(&mut db, 3, StatusArg::InProgress, None));
    assert_eq!(view(&db, 1)[4], "status: in_progress");
    let r = cmd_task_edit(&mut db, &s("alice"), &s("alpha"), 3, None, None, None, Some(2), None, None, 800);
    assert_eq!(lines(r), vec![s("updated task 3")]);
    assert_eq!(view(&db, 1)[7], "dependsOn: []");
    assert_eq!(view(&db, 1)[4], "status: pending");
    assert_eq!(view(&db, 2)[7], "dependsOn: [3]");
    assert_eq!(view(&db, 2)[4], "status: in_progress");
}
