//! Running one command of the command line on the tables: the reading of
//! its arguments and the choice of the operation.
use vstd::prelude::*;

use crate::board::{
    board_create_outcome, board_delete_outcome, board_grant_outcome, board_list_outcome,
    board_members_outcome, board_revoke_outcome, board_view_outcome, cmd_board_create,
    cmd_board_delete, cmd_board_grant, cmd_board_list, cmd_board_members, cmd_board_revoke,
    cmd_board_view,
};
use crate::cli::{
    grant_action_names, grant_actions, size_name, status_name, BoardCmd, Cmd, SizeArg, StatusArg,
    TaskCmd, UserCmd,
};
use crate::error::{app_err_str, fails_with, CmdError};
use crate::store::{Db, Outcome};
use crate::task_cmd::{
    cmd_task_add, cmd_task_delete, cmd_task_edit, cmd_task_list, cmd_task_status, cmd_task_view,
    opt_view, task_add_outcome, task_delete_outcome, task_edit_outcome, task_list_outcome,
    task_status_outcome, task_view_outcome,
};
use crate::user::{
    cmd_init, cmd_user_add, cmd_user_list, cmd_user_remove, init_outcome, user_add_outcome,
    user_list_outcome, user_remove_outcome,
};
use crate::utils::{invalid_task_id_msg, parse_depends, spec_parse_depends};
use crate::wellformed::well_formed;

verus! {

/// The commands that the program runs itself rather than on the tables:
/// `clear` removes the file, and `board poll` keeps watching a board.
pub open spec fn runs_outside(cmd: Cmd) -> bool {
    match cmd {
        Cmd::Clear => true,
        Cmd::Board(b) => b is Poll,
        _ => false,
    }
}

/// A `--depends-on` value read: none, the ids it lists, or the first item
/// that is not an id.
pub open spec fn depends_input(raw: Option<String>) -> Result<Option<Seq<i64>>, Seq<char>> {
    match raw {
        None => Ok(None),
        Some(v) => match spec_parse_depends(v@) {
            Ok(ids) => Ok(Some(ids)),
            Err(item) => Err(item),
        },
    }
}

/// The name of an optional status.
pub open spec fn status_view(s: Option<StatusArg>) -> Option<Seq<char>> {
    match s {
        Some(v) => Some(status_name(v)),
        None => None,
    }
}

/// The name of an optional size.
pub open spec fn size_view(s: Option<SizeArg>) -> Option<Seq<char>> {
    match s {
        Some(v) => Some(size_name(v)),
        None => None,
    }
}

/// What running `cmd` on the tables `old` does: the operation that the
/// command names, on its arguments, leaving the tables `new` and the
/// result `r`. A `--depends-on` value that does not read as ids is an
/// `input` error before anything else; `--clear-depends-on` gives the empty
/// list; `board grant` without permissions grants `read`.
pub open spec fn command_outcome(old: Db, new: Db, cmd: Cmd, now: i64, r: Result<Outcome, CmdError>) -> bool {
    match cmd {
        Cmd::Init { user } => init_outcome(old, new, user, r),
        Cmd::Clear => true,
        Cmd::Board(b) => match b {
            BoardCmd::Create { user, name } => board_create_outcome(old, new, user, name, now, r),
            BoardCmd::List { user } => new == old && board_list_outcome(old, user, r),
            BoardCmd::View { user, board } => new == old && board_view_outcome(old, user, board, r),
            BoardCmd::Members { user, board } => new == old && board_members_outcome(old, user, board, r),
            BoardCmd::Poll { .. } => true,
            BoardCmd::Grant { user, board, target, permissions } => board_grant_outcome(
                old,
                new,
                user,
                board,
                target,
                grant_actions(permissions@),
                r,
            ),
            BoardCmd::Revoke { user, board, target } => board_revoke_outcome(old, new, user, board, target, r),
            BoardCmd::Delete { user, board } => board_delete_outcome(old, new, user, board, r),
        },
        Cmd::Task(t) => match t {
            TaskCmd::List { user, board, status, size, parent, assignee } => new == old && task_list_outcome(
                old,
                user,
                board,
                status_view(status),
                size_view(size),
                parent,
                assignee,
                r,
            ),
            TaskCmd::View { user, board, task_id } => new == old && task_view_outcome(old, user, board, task_id, r),
            TaskCmd::Add { user, board, title, description, size, parent, assignee, depends_on } => match depends_input(depends_on) {
                Err(item) => new == old && fails_with(r, "input"@, invalid_task_id_msg(item)),
                Ok(deps) => task_add_outcome(
                    old,
                    new,
                    user,
                    board,
                    title,
                    description,
                    size_name(size),
                    parent,
                    assignee,
                    deps,
                    now,
                    r,
                ),
            },
            TaskCmd::Edit {
                user,
                board,
                task_id,
                title,
                description,
                size,
                parent,
                assignee,
                depends_on,
                clear_depends_on,
            } => {
                let given = if clear_depends_on {
                    Ok(Some(Seq::<i64>::empty()))
                } else {
                    depends_input(depends_on)
                };
                match given {
                    Err(item) => new == old && fails_with(r, "input"@, invalid_task_id_msg(item)),
                    Ok(deps) => task_edit_outcome(
                        old,
                        new,
                        user,
                        board,
                        task_id,
                        opt_view(title),
                        opt_view(description),
                        size_view(size),
                        parent,
                        assignee,
                        deps,
                        now,
                        r,
                    ),
                }
            },
            TaskCmd::Status { user, board, task_id, status, note } => task_status_outcome(
                old,
                new,
                user,
                board,
                task_id,
                status,
                note,
                now,
                r,
            ),
            TaskCmd::Delete { user, board, task_id } => task_delete_outcome(old, new, user, board, task_id, now, r),
        },
        Cmd::User(u) => match u {
            UserCmd::Add { user, name } => user_add_outcome(old, new, user, name, r),
            UserCmd::Remove { user, name } => user_remove_outcome(old, new, user, name, r),
            UserCmd::List { user } => new == old && user_list_outcome(old, user, r),
        },
    }
}

/// The name of an optional status, as a string.
fn status_string(s: Option<StatusArg>) -> (r: Option<String>)
    ensures
        opt_view(r) == status_view(s),
{
    match s {
        Some(v) => Some(String::from_str(v.as_str())),
        None => None,
    }
}

/// The name of an optional size, as a string.
fn size_string(s: Option<SizeArg>) -> (r: Option<String>)
    ensures
        opt_view(r) == size_view(s),
{
    match s {
        Some(v) => Some(String::from_str(v.as_str())),
        None => None,
    }
}

/// Runs one command on the tables at time `now`: reads its arguments and
/// calls the operation that it names. `clear` and `board poll` are run by
/// the program itself and are not given here.
pub fn run_command(db: &mut Db, cmd: Cmd, now: i64) -> (r: Result<Outcome, CmdError>)
    requires
        !runs_outside(cmd),
    ensures
        command_outcome(*old(db), *final(db), cmd, now, r),
        well_formed(*old(db)) ==> well_formed(*final(db)),
        crate::wellformed::tables_keyed(*old(db)) ==> crate::wellformed::tables_keyed(*final(db)),
{
    match cmd {
        Cmd::Init { user } => cmd_init(db, &user),
        Cmd::Clear => {
            proof {
                assert(false);
            }
            Err(app_err_str("system", "clear is not run on the tables"))
        },
        Cmd::Board(b) => match b {
            BoardCmd::Poll { .. } => {
                proof {
                    assert(false);
                }
                Err(app_err_str("system", "board poll is not run on the tables"))
            },
            BoardCmd::Create { user, name } => cmd_board_create(db, &user, &name, now),
            BoardCmd::List { user } => cmd_board_list(db, &user),
            BoardCmd::View { user, board } => cmd_board_view(db, &user, &board),
            BoardCmd::Members { user, board } => cmd_board_members(db, &user, &board),
            BoardCmd::Grant { user, board, target, permissions } => {
                let actions = grant_action_names(&permissions);
                cmd_board_grant(db, &user, &board, &target, &actions)
            },
            BoardCmd::Revoke { user, board, target } => cmd_board_revoke(db, &user, &board, &target),
            BoardCmd::Delete { user, board } => cmd_board_delete(db, &user, &board),
        },
        Cmd::Task(t) => match t {
            TaskCmd::List { user, board, status, size, parent, assignee } => cmd_task_list(
                db,
                &user,
                &board,
                status_string(status),
                size_string(size),
                parent,
                assignee,
            ),
            TaskCmd::View { user, board, task_id } => cmd_task_view(db, &user, &board, task_id),
            TaskCmd::Add { user, board, title, description, size, parent, assignee, depends_on } => {
                let depends = match parse_depends(depends_on) {
                    Ok(d) => d,
                    Err(e) => {
                        return Err(CmdError::App(e));
                    },
                };
                let size_text = String::from_str(size.as_str());
                cmd_task_add(
                    db,
                    &user,
                    &board,
                    &title,
                    &description,
                    &size_text,
                    parent,
                    assignee,
                    depends,
                    now,
                )
            },
            TaskCmd::Edit {
                user,
                board,
                task_id,
                title,
                description,
                size,
                parent,
                assignee,
                depends_on,
                clear_depends_on,
            } => {
                let depends = if clear_depends_on {
                    Some(Vec::new())
                } else {
                    match parse_depends(depends_on) {
                        Ok(d) => d,
                        Err(e) => {
                            return Err(CmdError::App(e));
                        },
                    }
                };
                proof {
                    if clear_depends_on {
                        assert(crate::task_cmd::ids_view(depends) == Some(Seq::<i64>::empty()));
                    }
                }
                cmd_task_edit(
                    db,
                    &user,
                    &board,
                    task_id,
                    title,
                    description,
                    size_string(size),
                    parent,
                    assignee,
                    depends,
                    now,
                )
            },
            TaskCmd::Status { user, board, task_id, status, note } => cmd_task_status(
                db,
                &user,
                &board,
                task_id,
                status,
                note,
                now,
            ),
            TaskCmd::Delete { user, board, task_id } => cmd_task_delete(db, &user, &board, task_id, now),
        },
        Cmd::User(u) => match u {
            UserCmd::Add { user, name } => cmd_user_add(db, &user, &name),
            UserCmd::Remove { user, name } => cmd_user_remove(db, &user, &name),
            UserCmd::List { user } => cmd_user_list(db, &user),
        },
    }
}

/// The commands that only read the tables: `board list`, `board view`,
/// `board members`, `task list`, `task view` and `user list`.
pub open spec fn is_read_command(cmd: Cmd) -> bool {
    match cmd {
        Cmd::Board(b) => b is List || b is View || b is Members,
        Cmd::Task(t) => t is List || t is View,
        Cmd::User(u) => u is List,
        _ => false,
    }
}

/// Whether `cmd` only reads the tables: when it does, running it leaves
/// them as they were.
pub fn reads_only(cmd: &Cmd) -> (r: bool)
    ensures
        r == is_read_command(*cmd),
        r ==> forall|old: Db, new: Db, now: i64, res: Result<Outcome, CmdError>|
            #[trigger] command_outcome(old, new, *cmd, now, res) ==> new == old,
{
    match cmd {
        Cmd::Board(b) => match b {
            BoardCmd::List { .. } => true,
            BoardCmd::View { .. } => true,
            BoardCmd::Members { .. } => true,
            _ => false,
        },
        Cmd::Task(t) => match t {
            TaskCmd::List { .. } => true,
            TaskCmd::View { .. } => true,
            _ => false,
        },
        Cmd::User(u) => match u {
            UserCmd::List { .. } => true,
            _ => false,
        },
        _ => false,
    }
}

} // verus!
