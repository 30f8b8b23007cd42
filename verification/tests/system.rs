//! The checks around the database file: root privileges for `clear`, its
//! report, and the schema of an existing file.
use blackboard::cli::Cmd;
use blackboard::commands::run_command;
use blackboard::error::CmdError;
use blackboard::store::Db;
use blackboard::system::{check_schema, clear_line, contains_str, require_system_root};

fn text<T: std::fmt::Debug>(r: Result<T, CmdError>) -> String {
    match r {
        Ok(v) => panic!("unexpected success: {:?}", v),
        Err(e) => e.to_string(),
    }
}

fn names(v: &[&str]) -> Vec<String> {
    v.iter().map(|n| n.to_string()).collect()
}

const GOOD_SQL: &str = "CREATE TABLE board_member_permissions(action TEXT CHECK(action IN ('read','delete_board')))";

#[test]
fn root_may_clear_and_others_may_not() {
    assert!(require_system_root(0).is_ok());
    assert_eq!(
        text(require_system_root(1000)),
        "forbidden: clear requires system root privileges (effective uid 0)"
    );
}

#[test]
fn clear_reports_removal_or_absence() {
    assert_eq!(
        clear_line(true, "/home/a/.blackboard/blackboard.db"),
        "cleared all data by removing /home/a/.blackboard/blackboard.db"
    );
    assert_eq!(
        clear_line(false, "/home/a/.blackboard/blackboard.db"),
        "database already absent at /home/a/.blackboard/blackboard.db"
    );
}

#[test]
fn substring_search_finds_runs_only() {
    assert!(contains_str("abc delete_board xyz", "delete_board"));
    assert!(contains_str("delete_board", "delete_board"));
    assert!(contains_str("abc", ""));
    assert!(!contains_str("delete_boar", "delete_board"));
    assert!(!contains_str("delete board", "delete_board"));
}

#[test]
fn current_schema_is_accepted() {
    let tasks = names(&["id", "board_id", "title", "size", "status"]);
    let members = names(&["board_id", "user_id"]);
    assert_eq!(check_schema(Some(GOOD_SQL.to_string()), &tasks, &members).unwrap(), false);
}

#[test]
fn schema_without_size_column_is_accepted_with_migration() {
    let tasks = names(&["id", "board_id", "title", "status"]);
    let members = names(&["board_id", "user_id"]);
    assert_eq!(check_schema(Some(GOOD_SQL.to_string()), &tasks, &members).unwrap(), true);
}

#[test]
fn missing_permission_table_is_rejected() {
    let tasks = names(&["id", "size"]);
    let members = names(&["board_id", "user_id"]);
    assert_eq!(
        text(check_schema(None, &tasks, &members)),
        "schema: table 'board_member_permissions' is missing"
    );
}

#[test]
fn permission_table_without_delete_board_is_rejected() {
    let tasks = names(&["id", "size"]);
    let members = names(&["board_id", "user_id"]);
    let sql = "CREATE TABLE board_member_permissions(action TEXT CHECK(action IN ('read','delete')))";
    assert_eq!(
        text(check_schema(Some(sql.to_string()), &tasks, &members)),
        "schema: unsupported schema detected: board_member_permissions is missing delete_board permission; remove ~/.blackboard/blackboard.db"
    );
}

#[test]
fn legacy_task_kind_column_is_rejected() {
    let tasks = names(&["id", "kind", "size"]);
    let members = names(&["board_id", "user_id", "role_id"]);
    assert_eq!(
        text(check_schema(Some(GOOD_SQL.to_string()), &tasks, &members)),
        "schema: unsupported legacy schema detected: tasks.kind still exists; remove ~/.blackboard/blackboard.db"
    );
}

#[test]
fn legacy_member_role_column_is_rejected() {
    let tasks = names(&["id", "size"]);
    let members = names(&["board_id", "user_id", "role_id"]);
    assert_eq!(
        text(check_schema(Some(GOOD_SQL.to_string()), &tasks, &members)),
        "schema: unsupported legacy schema detected: board_members.role_id still exists; remove ~/.blackboard/blackboard.db"
    );
}

#[test]
fn clear_enforces_system_root_and_removes_db_when_allowed() {
    let mut db = Db::new();
    let init = run_command(&mut db, Cmd::Init { user: "alice".to_string() }, 1);
    assert!(init.is_ok());
    for euid in [0u32, 1000u32] {
        match require_system_root(euid) {
            Ok(()) => {
                assert_eq!(euid, 0);
                let out = clear_line(true, "/home/alice/.blackboard/blackboard.db");
                assert!(out.contains("cleared all data by removing"));
            }
            Err(e) => {
                assert_ne!(euid, 0);
                assert!(e.to_string().contains("forbidden: clear requires system root privileges"));
            }
        }
    }
}

#[test]
fn legacy_schema_is_rejected() {
    let tasks = names(&[
        "id", "board_id", "title", "description", "parent_id", "kind", "assignee_id", "status",
        "created_by", "updated_by", "created_at", "updated_at",
    ]);
    let members = names(&["board_id", "user_id", "role_id"]);
    let err = text(check_schema(Some(GOOD_SQL.to_string()), &tasks, &members));
    assert!(err.contains("schema:"));
}
