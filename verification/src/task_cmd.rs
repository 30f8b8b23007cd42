//! The `task` commands: listing, viewing, adding, editing, setting the
//! status of and deleting tasks.
use vstd::prelude::*;

use crate::board::{access_board, access_failure, board_access, copy_db, lemma_unmarked_tasks_facts};
use crate::error::{app_err_str, fails_with, CmdError};
use crate::models::Task;
use crate::poll::{append_debug_opt, debug_opt};
use crate::store::{
    find_user_by_id, task_in_board, user_id_named, user_name_of, Db, Note, Outcome, TaskRow,
};
use crate::cascade::{
    close_marks, copy_task, has_marked_parent, note_survives, remove_marked,
    unmarked_tasks, dep_survives,
};
use crate::cli::{status_name, StatusArg};
use crate::store::{lemma_max_id_bound, max_id, next_note_id, next_task_id, note_ids, task_ids};
use crate::task::{
    ancestor, blocked_by_msg, deps_listed, ensure_dependencies_completed, find_task_in_board_at,
    least_open_dep, lemma_first_task_exists, lemma_first_task_unique, lemma_not_on_parent_chain,
    lemma_same_shape_ancestor, lemma_same_shape_parent, lemma_same_shape_task_at, needs_note,
    normalize_note, only_status_at, same_shape, status_of, status_requires_note, str_eq,
    sync_large_ancestors, task_at, up_to_date, ensure_task_in_board, not_in_board_msg,
    set_dependencies, sync_large_task, lemma_deps_listed_own, lemma_same_shape_trans,
    lemma_same_shape_refl, lemma_sync_frame_status_frame, chain_ends_before,
    ensure_parent_assignment, dep_check, lemma_dep_check_new_row, lemma_dep_check_same_rows,
    DepCheck, sync_error, chain_up_to_date, lemma_up_to_date_fits, lemma_edges_within_same,
    lemma_children_edges_same_shape, lemma_note_push_max, notes_room, resync_fits, board_dep_edges, lemma_no_children, is_large, lemma_sync_chain_consistent, lemma_sync_makes_consistent,
    parent_in_board, lemma_deps_listed_others, chain_ends, lemma_same_shape_no_large, no_large_above, edges_with, child_ids, on_chain, large_tasks_consistent, large_consistent, lemma_consistent_local, lemma_consistent_local_rows, lemma_same_shape_on_chain,
};
use crate::store::first_task_in_board;
use crate::graph::{acyclic, reaches};
use crate::text::{trim, trim_chars};
use crate::auth::{may_act, require, resolve_board_id, selected_board};
use crate::text::{
    append_i64, append_padded, append_str, append_usize, chars_of, i64_decimal, int_decimal,
    nat_decimal, pad_right, views,
};
use crate::user::{get_or_create_user, get_user_id, user_not_found_msg, user_room, with_user};
use crate::utils::{
    decimal_list, format_depends, lemma_sorted_ids_idempotent, normalize_depends, sorted_ids,
};

use crate::wellformed::{lemma_chain_ends_before_avoids, lemma_parent_chain_avoids, lemma_update_keeps_chain, lemma_insert_keeps_chain, task_exists, lemma_well_formed_reparent, lemma_well_formed_same_links, same_links, well_formed};

verus! {

/// The view of an optional string.
pub open spec fn opt_view(o: Option<String>) -> Option<Seq<char>> {
    match o {
        Some(s) => Some(s@),
        None => None,
    }
}

/// The view of an optional list of ids.
pub open spec fn ids_view(o: Option<Vec<i64>>) -> Option<Seq<i64>> {
    match o {
        Some(v) => Some(v@),
        None => None,
    }
}

/// The name of the assignee of `row`, when it has one that is a user.
pub open spec fn assignee_name_of(db: Db, row: TaskRow) -> Option<Seq<char>> {
    match row.assignee_id {
        Some(a) => user_name_of(db.users@, a),
        None => None,
    }
}

/// `t` shows the task row `row`.
pub open spec fn shows(db: Db, t: Task, row: TaskRow) -> bool {
    &&& t.id == row.id
    &&& t.title@ == row.title@
    &&& t.description@ == row.description@
    &&& t.size@ == row.size@
    &&& t.parent_id == row.parent_id
    &&& t.assignee_id == row.assignee_id
    &&& opt_view(t.assignee_name) == assignee_name_of(db, row)
    &&& t.status@ == row.status@
}

/// The name of the user with id `id`, if there is one.
fn name_of_user(db: &Db, id: Option<i64>) -> (r: Option<String>)
    ensures
        opt_view(r) == match id {
            Some(a) => user_name_of(db.users@, a),
            None => None,
        },
{
    match id {
        None => None,
        Some(a) => match find_user_by_id(&db.users, a) {
            Some(i) => Some(db.users[i].name.clone()),
            None => None,
        },
    }
}

/// The task that row `i` holds, with the name of its assignee.
pub fn map_task(db: &Db, i: usize) -> (t: Task)
    requires
        i < db.tasks@.len(),
    ensures
        shows(*db, t, db.tasks@[i as int]),
{
    let row = &db.tasks[i];
    Task {
        id: row.id,
        title: row.title.clone(),
        description: row.description.clone(),
        size: row.size.clone(),
        parent_id: row.parent_id,
        assignee_id: row.assignee_id,
        assignee_name: name_of_user(db, row.assignee_id),
        status: row.status.clone(),
    }
}

/// Task `task_id` of board `board_id`; a `not_found` error when the board
/// has no such task.
pub fn get_task(db: &Db, board_id: i64, task_id: i64) -> (r: Result<Task, CmdError>)
    ensures
        r is Err <==> !task_in_board(db.tasks@, board_id, task_id),
        r is Err ==> fails_with(r, "not_found"@, "task not found in board"@),
        r matches Ok(t) ==> shows(*db, t, task_at(*db, board_id, task_id)),
{
    match find_task_in_board_at(db, board_id, task_id) {
        Some(i) => Ok(map_task(db, i)),
        None => Err(app_err_str("not_found", "task not found in board")),
    }
}

/// The tasks on which task `task_id` depends, in ascending order.
pub fn depends_of(db: &Db, task_id: i64) -> (r: Vec<i64>)
    ensures
        r@ == sorted_ids(deps_listed(db.dependencies@, task_id)),
{
    let mut out: Vec<i64> = Vec::new();
    let mut i: usize = 0;
    assert(db.dependencies@.take(0) =~= Seq::<crate::store::Dependency>::empty());
    while i < db.dependencies.len()
        invariant
            i <= db.dependencies@.len(),
            out@ == deps_listed(db.dependencies@.take(i as int), task_id),
        decreases db.dependencies@.len() - i,
    {
        assert(db.dependencies@.take(i + 1).drop_last() =~= db.dependencies@.take(i as int));
        if db.dependencies[i].task_id == task_id {
            out.push(db.dependencies[i].depends_on);
        }
        i = i + 1;
    }
    assert(db.dependencies@.take(db.dependencies@.len() as int) =~= db.dependencies@);
    normalize_depends(out)
}

/// The `dependsOn` text of task `task_id`.
pub open spec fn depends_text(db: Db, task_id: i64) -> Seq<char> {
    "["@ + decimal_list(sorted_ids(deps_listed(db.dependencies@, task_id))) + "]"@
}

/// A name, or `"-"` for none.
pub open spec fn or_dash(o: Option<Seq<char>>) -> Seq<char> {
    match o {
        Some(s) => s,
        None => "-"@,
    }
}

/// The line of a post note: its time, status, author (`system` for none)
/// and body.
pub open spec fn note_line(db: Db, n: Note) -> Seq<char> {
    "  - ["@ + int_decimal(n.created_at as int) + "] status="@ + n.status@ + " author="@ + match n.author_id {
        Some(a) => match user_name_of(db.users@, a) {
            Some(name) => name,
            None => "system"@,
        },
        None => "system"@,
    } + " "@ + n.body@
}

/// The lines of the post notes of task `task_id`, in the order of the
/// notes.
pub open spec fn note_lines(db: Db, notes: Seq<Note>, task_id: i64) -> Seq<Seq<char>>
    decreases notes.len(),
{
    if notes.len() == 0 {
        Seq::<Seq<char>>::empty()
    } else {
        let prev = note_lines(db, notes.drop_last(), task_id);
        if notes.last().task_id == task_id {
            prev.push(note_line(db, notes.last()))
        } else {
            prev
        }
    }
}

/// The lines of `task view`.
pub open spec fn view_lines(db: Db, t: TaskRow) -> Seq<Seq<char>> {
    let notes = note_lines(db, db.notes@, t.id);
    seq![
        "id: "@ + int_decimal(t.id as int),
        "title: "@ + t.title@,
        "description: "@ + t.description@,
        "size: "@ + t.size@,
        "status: "@ + t.status@,
        "parent: "@ + debug_opt(t.parent_id),
        "assignee: "@ + or_dash(assignee_name_of(db, t)),
        "dependsOn: "@ + depends_text(db, t.id),
        "postNotes:"@,
    ] + if notes.len() == 0 {
        seq!["  - (none)"@]
    } else {
        notes
    }
}

/// Appends the note lines of task `task_id`.
fn push_note_lines(db: &Db, lines: &mut Vec<String>, task_id: i64)
    ensures
        views(final(lines)@) == views(old(lines)@) + note_lines(*db, db.notes@, task_id),
{
    let mut i: usize = 0;
    let ghost start = views(lines@);
    assert(db.notes@.take(0) =~= Seq::<Note>::empty());
    assert(start + note_lines(*db, db.notes@.take(0), task_id) =~= start);
    while i < db.notes.len()
        invariant
            i <= db.notes@.len(),
            views(lines@) == start + note_lines(*db, db.notes@.take(i as int), task_id),
        decreases db.notes@.len() - i,
    {
        assert(db.notes@.take(i + 1).drop_last() =~= db.notes@.take(i as int));
        let n = &db.notes[i];
        if n.task_id == task_id {
            let mut line = String::new();
            append_str(&mut line, "  - [");
            append_i64(&mut line, n.created_at);
            append_str(&mut line, "] status=");
            append_str(&mut line, n.status.as_str());
            append_str(&mut line, " author=");
            let author = name_of_user(db, n.author_id);
            match author {
                Some(name) => append_str(&mut line, name.as_str()),
                None => append_str(&mut line, "system"),
            }
            append_str(&mut line, " ");
            append_str(&mut line, n.body.as_str());
            let ghost before = lines@;
            lines.push(line);
            assert(views(lines@) =~= views(before).push(line@));
        }
        i = i + 1;
    }
    assert(db.notes@.take(db.notes@.len() as int) =~= db.notes@);
}

/// A line holding `text`.
fn line_of(text: &str) -> (s: String)
    ensures
        s@ == text@,
{
    let mut s = String::new();
    append_str(&mut s, text);
    s
}

/// A line `"<label><text>"`.
fn labelled(label: &str, text: &str) -> (s: String)
    ensures
        s@ == label@ + text@,
{
    let mut s = String::new();
    append_str(&mut s, label);
    append_str(&mut s, text);
    s
}

/// What `task view` does: the result `r` and, for a command that changes the
/// tables, the tables `new` that it leaves of `old`.
pub open spec fn task_view_outcome(
    db: Db,
    actor: String,
    board: String,
    task_id: i64,
    r: Result<Outcome, CmdError>,
) -> bool {
    &&& (board_access(db, actor@, board@, "read"@) is None ==> access_failure(db, actor@, board@, "read"@, r))
    &&& (board_access(db, actor@, board@, "read"@) matches Some((a, b)) ==> {
        if !task_in_board(db.tasks@, b, task_id) {
            fails_with(r, "not_found"@, "task not found in board"@)
        } else {
            r matches Ok(out) && views(out.lines@) == view_lines(
                db,
                task_at(db, b, task_id),
            )
        }
    })
}

/// `task view`: for an actor who may read the board, the fields of task
/// `task_id`, its dependencies and its post notes.
pub fn cmd_task_view(db: &Db, actor: &String, board: &String, task_id: i64) -> (r: Result<
    Outcome,
    CmdError,
>)
    ensures
        task_view_outcome(*db, *actor, *board, task_id, r),
{
    let (_actor_id, board_id) = access_board(db, actor, board, "read")?;
    let task = get_task(db, board_id, task_id)?;
    let mut lines: Vec<String> = Vec::new();
    let ghost t = task_at(*db, board_id, task_id);
    let mut l = String::new();
    append_str(&mut l, "id: ");
    append_i64(&mut l, task.id);
    lines.push(l);
    lines.push(labelled("title: ", task.title.as_str()));
    lines.push(labelled("description: ", task.description.as_str()));
    lines.push(labelled("size: ", task.size.as_str()));
    lines.push(labelled("status: ", task.status.as_str()));
    let mut p = String::new();
    append_str(&mut p, "parent: ");
    append_debug_opt(&mut p, task.parent_id);
    lines.push(p);
    match &task.assignee_name {
        Some(name) => lines.push(labelled("assignee: ", name.as_str())),
        None => lines.push(labelled("assignee: ", "-")),
    }
    let deps = depends_of(db, task_id);
    let dtext = format_depends(deps.as_slice());
    lines.push(labelled("dependsOn: ", dtext.as_str()));
    lines.push(line_of("postNotes:"));
    let ghost head = views(lines@);
    assert(lines@.len() == 9);
    assert(head[0] == lines@[0]@);
    assert(head[6] == lines@[6]@);
    assert(head[6] == "assignee: "@ + or_dash(assignee_name_of(*db, t)));
    push_note_lines(db, &mut lines, task_id);
    if lines.len() == 9 {
        lines.push(line_of("  - (none)"));
    }
    proof {
        let t = task_at(*db, board_id, task_id);
        let notes = note_lines(*db, db.notes@, t.id);
        let expect = seq![
            "id: "@ + int_decimal(t.id as int),
            "title: "@ + t.title@,
            "description: "@ + t.description@,
            "size: "@ + t.size@,
            "status: "@ + t.status@,
            "parent: "@ + debug_opt(t.parent_id),
            "assignee: "@ + or_dash(assignee_name_of(*db, t)),
            "dependsOn: "@ + depends_text(*db, t.id),
            "postNotes:"@,
        ];
        assert(head.len() == 9);
        crate::task::lemma_first_task_exists(db.tasks@, board_id, task_id);
        assert(t.id == task_id);
        assert(head[0] == expect[0]);
        assert(head[1] == expect[1]);
        assert(head[2] == expect[2]);
        assert(head[3] == expect[3]);
        assert(head[4] == expect[4]);
        assert(head[5] == expect[5]);
        assert(head[6] == expect[6]);
        assert(head[7] == expect[7]);
        assert(head[8] == expect[8]);
        assert(head =~= expect);
        assert(views(lines@) =~= view_lines(*db, t));
    }
    Ok(Outcome { lines })
}

/// Task row `t` is on board `board_id` and passes the filters of `task
/// list`.
pub open spec fn passes(
    t: TaskRow,
    board_id: i64,
    status: Option<Seq<char>>,
    size: Option<Seq<char>>,
    parent: Option<i64>,
    assignee_id: Option<i64>,
) -> bool {
    &&& t.board_id == board_id
    &&& match status {
        Some(s) => t.status@ == s,
        None => true,
    }
    &&& match size {
        Some(s) => t.size@ == s,
        None => true,
    }
    &&& match parent {
        Some(p) => t.parent_id == Some(p),
        None => true,
    }
    &&& match assignee_id {
        Some(a) => t.assignee_id == Some(a),
        None => true,
    }
}

/// The header of `task list`.
pub open spec fn list_header() -> Seq<char> {
    pad_right("ID"@, 4) + " "@ + pad_right("STATUS"@, 12) + " "@ + pad_right("SIZE"@, 8) + " "@
        + pad_right("PARENT"@, 7) + " "@ + pad_right("ASSIGNEE"@, 12) + " "@ + pad_right(
        "dependsOn"@,
        12,
    ) + " TITLE"@
}

/// The parent column of `task list`: the parent's id, or `"-"`.
pub open spec fn parent_text(p: Option<i64>) -> Seq<char> {
    match p {
        Some(v) => int_decimal(v as int),
        None => "-"@,
    }
}

/// The line of task row `t` in `task list`.
pub open spec fn list_line(db: Db, t: TaskRow) -> Seq<char> {
    pad_right(int_decimal(t.id as int), 4) + " "@ + pad_right(t.status@, 12) + " "@ + pad_right(
        t.size@,
        8,
    ) + " "@ + pad_right(parent_text(t.parent_id), 7) + " "@ + pad_right(
        or_dash(assignee_name_of(db, t)),
        12,
    ) + " "@ + pad_right(depends_text(db, t.id), 12) + " "@ + t.title@
}

/// The lines of the tasks of `tasks` that pass the filters, in table order.
pub open spec fn list_lines(
    db: Db,
    tasks: Seq<TaskRow>,
    board_id: i64,
    status: Option<Seq<char>>,
    size: Option<Seq<char>>,
    parent: Option<i64>,
    assignee_id: Option<i64>,
) -> Seq<Seq<char>>
    decreases tasks.len(),
{
    if tasks.len() == 0 {
        Seq::<Seq<char>>::empty()
    } else {
        let prev = list_lines(db, tasks.drop_last(), board_id, status, size, parent, assignee_id);
        if passes(tasks.last(), board_id, status, size, parent, assignee_id) {
            prev.push(list_line(db, tasks.last()))
        } else {
            prev
        }
    }
}

/// Whether `o` is absent or holds the text of `s`.
fn matches_filter(o: &Option<String>, s: &String) -> (r: bool)
    ensures
        r == match opt_view(*o) {
            Some(v) => s@ == v,
            None => true,
        },
{
    match o {
        Some(v) => crate::task::str_eq(s.as_str(), v.as_str()),
        None => true,
    }
}

/// The line of row `i` in `task list`.
fn list_line_of(db: &Db, i: usize) -> (s: String)
    requires
        i < db.tasks@.len(),
    ensures
        s@ == list_line(*db, db.tasks@[i as int]),
{
    let t = map_task(db, i);
    let mut s = String::new();
    let id = i64_decimal(t.id);
    append_padded(&mut s, &id, 4);
    append_str(&mut s, " ");
    let st = chars_of(t.status.as_str());
    append_padded(&mut s, &st, 12);
    append_str(&mut s, " ");
    let sz = chars_of(t.size.as_str());
    append_padded(&mut s, &sz, 8);
    append_str(&mut s, " ");
    let p = match t.parent_id {
        Some(v) => i64_decimal(v),
        None => chars_of("-"),
    };
    append_padded(&mut s, &p, 7);
    append_str(&mut s, " ");
    let a = match &t.assignee_name {
        Some(n) => chars_of(n.as_str()),
        None => chars_of("-"),
    };
    append_padded(&mut s, &a, 12);
    append_str(&mut s, " ");
    let deps = depends_of(db, t.id);
    let dtext = format_depends(deps.as_slice());
    let d = chars_of(dtext.as_str());
    append_padded(&mut s, &d, 12);
    append_str(&mut s, " ");
    append_str(&mut s, t.title.as_str());
    s
}

/// What `task list` does: the result `r` and, for a command that changes the
/// tables, the tables `new` that it leaves of `old`.
pub open spec fn task_list_outcome(
    db: Db,
    actor: String,
    board: String,
    status: Option<Seq<char>>,
    size: Option<Seq<char>>,
    parent: Option<i64>,
    assignee: Option<String>,
    r: Result<Outcome, CmdError>,
) -> bool {
    &&& (board_access(db, actor@, board@, "read"@) is None ==> access_failure(db, actor@, board@, "read"@, r))
    &&& (board_access(db, actor@, board@, "read"@) matches Some((a, b)) ==> {
        match assignee {
            Some(name) => match user_id_named(db.users@, name@) {
                None => fails_with(r, "auth"@, user_not_found_msg(name@)),
                Some(aid) => r matches Ok(out) && views(out.lines@)
                    == seq![list_header()] + list_lines(
                    db,
                    db.tasks@,
                    b,
                    status,
                    size,
                    parent,
                    Some(aid),
                ),
            },
            None => r matches Ok(out) && views(out.lines@)
                == seq![list_header()] + list_lines(db, db.tasks@, b, status, size, parent, None),
        }
    })
}

/// `task list`: for an actor who may read the board, the tasks of the board
/// that pass the given filters, in the order of their ids, under a header.
/// An assignee filter that names no user is an `auth` error.
pub fn cmd_task_list(
    db: &Db,
    actor: &String,
    board: &String,
    status: Option<String>,
    size: Option<String>,
    parent: Option<i64>,
    assignee: Option<String>,
) -> (r: Result<Outcome, CmdError>)
    ensures
        task_list_outcome(*db, *actor, *board, opt_view(status), opt_view(size), parent, assignee, r),
{
    let (_actor_id, board_id) = access_board(db, actor, board, "read")?;
    let assignee_id = match &assignee {
        Some(name) => Some(get_user_id(db, name)?),
        None => None,
    };
    let mut lines: Vec<String> = Vec::new();
    let mut head = String::new();
    append_padded(&mut head, &chars_of("ID"), 4);
    append_str(&mut head, " ");
    append_padded(&mut head, &chars_of("STATUS"), 12);
    append_str(&mut head, " ");
    append_padded(&mut head, &chars_of("SIZE"), 8);
    append_str(&mut head, " ");
    append_padded(&mut head, &chars_of("PARENT"), 7);
    append_str(&mut head, " ");
    append_padded(&mut head, &chars_of("ASSIGNEE"), 12);
    append_str(&mut head, " ");
    append_padded(&mut head, &chars_of("dependsOn"), 12);
    append_str(&mut head, " TITLE");
    lines.push(head);
    let mut i: usize = 0;
    assert(db.tasks@.take(0) =~= Seq::<TaskRow>::empty());
    assert(views(lines@) =~= seq![list_header()] + list_lines(*db, db.tasks@.take(0), board_id, opt_view(status), opt_view(size), parent, assignee_id));
    while i < db.tasks.len()
        invariant
            i <= db.tasks@.len(),
            views(lines@) == seq![list_header()] + list_lines(
                *db,
                db.tasks@.take(i as int),
                board_id,
                opt_view(status),
                opt_view(size),
                parent,
                assignee_id,
            ),
        decreases db.tasks@.len() - i,
    {
        assert(db.tasks@.take(i + 1).drop_last() =~= db.tasks@.take(i as int));
        let t = &db.tasks[i];
        let keep = t.board_id == board_id && matches_filter(&status, &t.status) && matches_filter(
            &size,
            &t.size,
        ) && match parent {
            Some(p) => t.parent_id == Some(p),
            None => true,
        } && match assignee_id {
            Some(a) => t.assignee_id == Some(a),
            None => true,
        };
        if keep {
            let line = list_line_of(db, i);
            let ghost before = lines@;
            lines.push(line);
            assert(views(lines@) =~= views(before).push(line@));
        }
        i = i + 1;
    }
    assert(db.tasks@.take(db.tasks@.len() as int) =~= db.tasks@);
    Ok(Outcome { lines })
}

/// The note that a status change records.
pub open spec fn is_status_note(n: Note, id: int, task_id: i64, author: i64, status: Seq<char>, body: Seq<char>, now: i64) -> bool {
    &&& n.id == id
    &&& n.task_id == task_id
    &&& n.author_id == Some(author)
    &&& n.status@ == status
    &&& n.body@ == body
    &&& n.created_at == now
}

/// The error message for a status change that needs a note and has none.
pub open spec fn note_required_msg(status: Seq<char>) -> Seq<char> {
    "--note is required when status is "@ + status
}

/// The error message for a manual move of a large task.
pub open spec fn large_status_msg() -> Seq<char> {
    "large task status is derived from children and cannot be set to in_progress/completed manually"@
}

/// What `task status` does: the result `r` and, for a command that changes the
/// tables, the tables `new` that it leaves of `old`.
pub open spec fn task_status_outcome(
    old: Db,
    new: Db,
    actor: String,
    board: String,
    task_id: i64,
    status: StatusArg,
    note: Option<String>,
    now: i64,
    r: Result<Outcome, CmdError>,
) -> bool {
    &&& (well_formed(old) ==> well_formed(new))
    &&& (crate::wellformed::tables_keyed(old) ==> crate::wellformed::tables_keyed(new))
    &&& (r is Err ==> new == old)
    &&& (board_access(old, actor@, board@, "set_status"@) is None ==> access_failure(old, actor@, board@, "set_status"@, r))
    &&& (board_access(old, actor@, board@, "set_status"@) matches Some((a, b)) ==> {
        let st = status_name(status);
        let moving = status is InProgress || status is Completed;
        if !task_in_board(old.tasks@, b, task_id) {
            fails_with(r, "not_found"@, "task not found in board"@)
        } else if note is Some && trim(note->0@).len() == 0 {
            fails_with(r, "input"@, "--note cannot be empty"@)
        } else if needs_note(st) && note is None {
            fails_with(r, "input"@, note_required_msg(st))
        } else if task_at(old, b, task_id).size@ == "large"@ && moving {
            fails_with(r, "status"@, large_status_msg())
        } else if moving && least_open_dep(old, task_id) is Some {
            let d = least_open_dep(old, task_id)->0;
            fails_with(r, "dependency"@, blocked_by_msg(task_id, st, d, status_of(old.tasks@, d)->0))
        } else {
            &&& (r matches Err(e) ==> sync_error(e))
            &&& ((task_at(old, b, task_id).parent_id is None || well_formed(old) && no_large_above(
                old,
                b,
                task_at(old, b, task_id).parent_id->0,
            )) && (note is None || max_id(
                note_ids(old.notes@),
            ) < i64::MAX) ==> r is Ok)
            &&& (task_at(old, b, task_id).parent_id matches Some(p) && well_formed(old) && chain_up_to_date(
                old,
                b,
                p,
            ) && max_id(note_ids(old.notes@)) + old.tasks@.len() + 1 < i64::MAX ==> r is Ok)
            &&& r matches Ok(out) ==> {
                let t = task_at(new, b, task_id);
                let parent = task_at(old, b, task_id).parent_id;
                &&& views(out.lines@) =~= seq!["status updated"@]
                &&& new.users@ == old.users@
                &&& new.boards@ == old.boards@
                &&& new.members@ == old.members@
                &&& new.permissions@ == old.permissions@
                &&& same_shape(old.tasks@, new.tasks@)
                &&& t.status@ == st
                &&& t.updated_by == Some(a)
                &&& t.updated_at == now
                &&& (well_formed(old) && large_tasks_consistent(old) ==> forall|b2: i64, v: i64|
                    !(b2 == b && v == task_id) ==> #[trigger] large_consistent(new, b2, v))
                &&& (well_formed(old) && large_tasks_consistent(old) && task_at(old, b, task_id).size@ != "large"@
                    ==> large_tasks_consistent(new))
                &&& forall|k: int|
                    0 <= k < old.tasks@.len() && !(old.tasks@[k].id == task_id && old.tasks@[k].board_id == b)
                        && !(old.tasks@[k].board_id == b && (parent matches Some(p) && on_chain(
                        new,
                        b,
                        p,
                        old.tasks@[k].id,
                    ))) ==> #[trigger] new.tasks@[k] == old.tasks@[k]
                &&& (note matches Some(raw) ==> new.notes@.len() > old.notes@.len()
                    && is_status_note(
                    new.notes@[old.notes@.len() as int],
                    max_id(note_ids(old.notes@)) + 1,
                    task_id,
                    a,
                    st,
                    trim(raw@),
                    now,
                ))
                &&& new.notes@.take(old.notes@.len() as int) == old.notes@
                &&& forall|v: i64| !is_large(new, b, v) ==> #[trigger] deps_listed(new.dependencies@, v)
                    == deps_listed(old.dependencies@, v)
                &&& (parent matches Some(p) ==> forall|k: nat|
                    up_to_date(new, b, #[trigger] ancestor(new, b, p, k)))
            }
        }
    })
}

/// A status change of task `t` (the row at `i`) followed by bringing the
/// chain above it up to date leaves every other large task up to date
/// when all were before.
proof fn lemma_status_keeps_consistent(
    old: Db,
    mid: Db,
    fin: Db,
    i: int,
    b: i64,
    t: i64,
    parent: Option<i64>,
    b2: i64,
    v: i64,
)
    requires
        well_formed(old),
        well_formed(mid),
        large_tasks_consistent(old),
        only_status_at(old.tasks@, mid.tasks@, i),
        same_shape(old.tasks@, mid.tasks@),
        0 <= i < old.tasks@.len(),
        old.tasks@[i].id == t,
        old.tasks@[i].board_id == b,
        old.tasks@[i].parent_id == parent,
        mid.dependencies@ == old.dependencies@,
        same_shape(mid.tasks@, fin.tasks@),
        parent is None ==> fin == mid,
        parent matches Some(p) ==> {
            &&& forall|u: i64|
                large_consistent(mid, b, u) && !on_chain(mid, b, p, u) ==> #[trigger] large_consistent(fin, b, u)
            &&& forall|k: nat| up_to_date(fin, b, #[trigger] ancestor(mid, b, p, k))
            &&& forall|u: i64|
                !is_large(mid, b, u) ==> #[trigger] deps_listed(fin.dependencies@, u) == deps_listed(mid.dependencies@, u)
            &&& forall|k: int|
                0 <= k < mid.tasks@.len() && !(mid.tasks@[k].board_id == b && on_chain(mid, b, p, mid.tasks@[k].id))
                    ==> #[trigger] fin.tasks@[k] == mid.tasks@[k]
        },
        !(b2 == b && v == t),
    ensures
        large_consistent(fin, b2, v),
{
    assert(large_consistent(old, b2, v));
    if !(b2 == b && Some(v) == parent) {
        assert forall|k: int|
            0 <= k < old.tasks@.len() && old.tasks@[k].board_id == b2 && (old.tasks@[k].id == v
                || old.tasks@[k].parent_id == Some(v)) implies #[trigger] mid.tasks@[k] == old.tasks@[k] by {
            assert(k != i);
        }
        lemma_consistent_local(old, mid, b2, v);
    }
    match parent {
        None => {},
        Some(p) => {
            if b2 == b {
                assert(ancestor(mid, b, p, 0) == Some(p));
            }
            lemma_chain_sync_keeps(mid, fin, b, p, b2, v);
        },
    }
}

/// Bringing the chain from `p` up to date leaves up to date each large task
/// that was so, of any board, and makes those on the chain up to date.
proof fn lemma_chain_sync_keeps(mid: Db, fin: Db, b: i64, p: i64, b2: i64, v: i64)
    requires
        well_formed(mid),
        same_shape(mid.tasks@, fin.tasks@),
        forall|u: i64|
            large_consistent(mid, b, u) && !on_chain(mid, b, p, u) ==> #[trigger] large_consistent(fin, b, u),
        forall|k: nat| up_to_date(fin, b, #[trigger] ancestor(mid, b, p, k)),
        forall|u: i64|
            !is_large(mid, b, u) ==> #[trigger] deps_listed(fin.dependencies@, u) == deps_listed(mid.dependencies@, u),
        forall|k: int|
            0 <= k < mid.tasks@.len() && !(mid.tasks@[k].board_id == b && on_chain(mid, b, p, mid.tasks@[k].id))
                ==> #[trigger] fin.tasks@[k] == mid.tasks@[k],
        large_consistent(mid, b2, v) || (b2 == b && on_chain(mid, b, p, v)),
    ensures
        large_consistent(fin, b2, v),
{
    if b2 == b {
        if on_chain(mid, b, p, v) {
            let j = choose|j: nat| #[trigger] ancestor(mid, b, p, j) == Some(v);
            assert(up_to_date(fin, b, ancestor(mid, b, p, j)));
        }
    } else {
        lemma_same_shape_task_at(mid, fin, b2, v);
        if task_in_board(mid.tasks@, b2, v) {
            let q = choose|q: int| 0 <= q < mid.tasks@.len() && mid.tasks@[q].id == v && mid.tasks@[q].board_id == b2;
            if is_large(mid, b, v) {
                let q2 = choose|q2: int| 0 <= q2 < mid.tasks@.len() && mid.tasks@[q2].id == v && mid.tasks@[q2].board_id == b;
                assert(mid.tasks@[q].id == mid.tasks@[q2].id);
            }
            assert forall|k: int|
                0 <= k < mid.tasks@.len() && mid.tasks@[k].board_id == b2 && (mid.tasks@[k].id == v
                    || mid.tasks@[k].parent_id == Some(v)) implies #[trigger] fin.tasks@[k] == mid.tasks@[k] by {
            }
            lemma_consistent_local(mid, fin, b2, v);
        }
    }
}

/// `task status`: for an actor who may set statuses on the board, sets the
/// status of task `task_id`, records the note when there is one, brings the
/// large tasks above it up to date, and reports `"status updated"`. A
/// note that is only white space, a missing note for `blocked` or
/// `completed`, a manual move of a large task to `in_progress` or
/// `completed`, and a move to `in_progress` or `completed` while a
/// dependency is not completed are errors, checked in that order.
pub fn cmd_task_status(
    db: &mut Db,
    actor: &String,
    board: &String,
    task_id: i64,
    status: StatusArg,
    note: Option<String>,
    now: i64,
) -> (r: Result<Outcome, CmdError>)
    ensures
        task_status_outcome(*old(db), *final(db), *actor, *board, task_id, status, note, now, r),
{
    let (actor_id, board_id) = access_board(db, actor, board, "set_status")?;
    let task = get_task(db, board_id, task_id)?;
    let normalized = normalize_note(note)?;
    let st = status.as_str();
    if status_requires_note(st) && normalized.is_none() {
        let mut m = String::new();
        append_str(&mut m, "--note is required when status is ");
        append_str(&mut m, st);
        return Err(crate::error::app_err("input", m));
    }
    let moving = match status {
        StatusArg::InProgress => true,
        StatusArg::Completed => true,
        _ => false,
    };
    if str_eq(task.size.as_str(), "large") && moving {
        return Err(app_err_str(
            "status",
            "large task status is derived from children and cannot be set to in_progress/completed manually",
        ));
    }
    proof {
        reveal_strlit("pending");
        reveal_strlit("blocked");
        reveal_strlit("in_progress");
        reveal_strlit("completed");
        assert("pending"@ != "in_progress"@ && "pending"@ != "completed"@) by {
            assert("pending"@[0] != "in_progress"@[0]);
            assert("pending"@[0] != "completed"@[0]);
        }
        assert("blocked"@ != "in_progress"@ && "blocked"@ != "completed"@) by {
            assert("blocked"@[0] != "in_progress"@[0]);
            assert("blocked"@[0] != "completed"@[0]);
        }
    }
    ensure_dependencies_completed(db, task_id, st)?;
    let i = match find_task_in_board_at(db, board_id, task_id) {
        Some(i) => i,
        None => {
            return Err(app_err_str("not_found", "task not found in board"));
        },
    };
    let mut work = copy_db(db);
    let mut row = copy_task(&work.tasks[i]);
    row.status = String::from_str(st);
    row.updated_by = Some(actor_id);
    row.updated_at = now;
    work.tasks.set(i, row);
    let ghost after_update = work;
    match normalized {
        Some(body) => {
            let note_id = next_note_id(&work.notes)?;
            let n = Note {
                id: note_id,
                task_id,
                author_id: Some(actor_id),
                status: String::from_str(st),
                body,
            created_at: now,
            };
            work.notes.push(n);
        },
        None => {},
    }
    let ghost mid = work;
    proof {
        assert(only_status_at(db.tasks@, mid.tasks@, i as int));
        assert(same_shape(db.tasks@, mid.tasks@)) by {
            assert forall|k: int| 0 <= k < db.tasks@.len() implies {
                &&& (#[trigger] mid.tasks@[k]).id == db.tasks@[k].id
                &&& mid.tasks@[k].board_id == db.tasks@[k].board_id
                &&& mid.tasks@[k].parent_id == db.tasks@[k].parent_id
                &&& mid.tasks@[k].size == db.tasks@[k].size
                &&& mid.tasks@[k].title == db.tasks@[k].title
                &&& mid.tasks@[k].description == db.tasks@[k].description
                &&& mid.tasks@[k].assignee_id == db.tasks@[k].assignee_id
                &&& mid.tasks@[k].created_by == db.tasks@[k].created_by
                &&& mid.tasks@[k].created_at == db.tasks@[k].created_at
            } by {}
        }
        lemma_same_shape_parent(*db, mid, board_id, task_id);
        assert(mid.notes@.take(db.notes@.len() as int) =~= db.notes@);
        if well_formed(*db) {
            assert(same_links(db.tasks@, mid.tasks@));
            lemma_well_formed_same_links(*db, mid);
        }
    }
    proof {
        if task.parent_id is Some && well_formed(*db) && no_large_above(*db, board_id, task.parent_id->0) {
            lemma_same_shape_no_large(*db, mid, board_id, task.parent_id->0);
            assert(chain_ends(mid, board_id, task.parent_id->0));
        }
        if task.parent_id is Some && well_formed(*db) && chain_up_to_date(*db, board_id, task.parent_id->0)
            && max_id(note_ids(db.notes@)) + db.tasks@.len() + 1 < i64::MAX {
            let p = task.parent_id->0;
            let g = board_dep_edges(*db, board_id);
            assert(acyclic(g));
            lemma_up_to_date_fits(*db, board_id, p);
            lemma_edges_within_same(*db, mid, board_id, g);
            lemma_children_edges_same_shape(*db, mid, board_id, p, g);
            assert(chain_ends(mid, board_id, p));
            if mid.notes@ != db.notes@ {
                assert(mid.notes@ == db.notes@.push(mid.notes@.last()));
                lemma_note_push_max(db.notes@, mid.notes@.last());
            }
            assert(notes_room(mid));
            assert(resync_fits(mid, board_id, p));
        }
    }
    sync_large_ancestors(&mut work, board_id, task.parent_id, now)?;
    proof {
        let fin = work;
        lemma_same_shape_task_at(mid, fin, board_id, task_id);
        match task.parent_id {
            Some(p) => {
                lemma_same_shape_on_chain(mid, fin, board_id, p);
                lemma_not_on_parent_chain(mid, board_id, task_id, p);
                assert(fin.tasks@[i as int] == mid.tasks@[i as int]);
                assert forall|k: nat| up_to_date(fin, board_id, #[trigger] ancestor(fin, board_id, p, k)) by {
                    lemma_same_shape_ancestor(mid, fin, board_id, p, k);
                    assert(up_to_date(fin, board_id, ancestor(mid, board_id, p, k)));
                }
            },
            None => {},
        }
        assert(first_task_in_board(fin.tasks@, board_id, task_id, i as int));
        lemma_first_task_exists(fin.tasks@, board_id, task_id);
        let j = choose|j: int| first_task_in_board(fin.tasks@, board_id, task_id, j);
        lemma_first_task_unique(fin.tasks@, board_id, task_id, i as int, j);
        if well_formed(*db) && large_tasks_consistent(*db) {
            assert forall|b2: i64, v: i64| !(b2 == board_id && v == task_id) implies #[trigger] large_consistent(
                fin,
                b2,
                v,
            ) by {
                lemma_status_keeps_consistent(*db, mid, fin, i as int, board_id, task_id, task.parent_id, b2, v);
            }
            if task.size@ != "large"@ {
                assert forall|b2: i64, v: i64| #[trigger] large_consistent(fin, b2, v) by {
                    if b2 == board_id && v == task_id {
                        lemma_same_shape_task_at(*db, fin, board_id, task_id);
                    }
                }
            }
        }
        assert(fin.notes@.take(db.notes@.len() as int) =~= fin.notes@.take(mid.notes@.len() as int).take(db.notes@.len() as int));
        if mid.notes@.len() > db.notes@.len() {
            assert(fin.notes@.take(mid.notes@.len() as int)[db.notes@.len() as int] == fin.notes@[db.notes@.len() as int]);
        }
    }
    *db = work;
    let mut lines: Vec<String> = Vec::new();
    lines.push(line_of("status updated"));
    assert(views(lines@) =~= seq!["status updated"@]);
    Ok(Outcome { lines })
}

/// The number of rows of task `id` on board `board_id`.
pub open spec fn rows_of(tasks: Seq<TaskRow>, board_id: i64, id: i64) -> nat
    decreases tasks.len(),
{
    if tasks.len() == 0 {
        0
    } else {
        rows_of(tasks.drop_last(), board_id, id) + if tasks.last().id == id && tasks.last().board_id
            == board_id {
            1nat
        } else {
            0nat
        }
    }
}

/// `m` marks the rows that deleting task `id` of board `board_id` removes:
/// the task's rows, and every row whose parent is removed, and no other.
pub open spec fn deletion_marks(tasks: Seq<TaskRow>, board_id: i64, id: i64, m: Seq<bool>) -> bool {
    &&& m.len() == tasks.len()
    &&& forall|i: int|
        0 <= i < tasks.len() && tasks[i].id == id && tasks[i].board_id == board_id ==> #[trigger] m[i]
    &&& forall|i: int| 0 <= i < tasks.len() && has_marked_parent(tasks, m, i) ==> #[trigger] m[i]
    &&& forall|i: int|
        0 <= i < tasks.len() && #[trigger] m[i] ==> (tasks[i].id == id && tasks[i].board_id
            == board_id) || has_marked_parent(tasks, m, i)
}

/// What `task delete` does: the result `r` and, for a command that changes the
/// tables, the tables `new` that it leaves of `old`.
pub open spec fn task_delete_outcome(
    old: Db,
    new: Db,
    actor: String,
    board: String,
    task_id: i64,
    now: i64,
    r: Result<Outcome, CmdError>,
) -> bool {
    &&& (well_formed(old) ==> well_formed(new))
    &&& (crate::wellformed::tables_keyed(old) ==> crate::wellformed::tables_keyed(new))
    &&& (r is Err ==> new == old)
    &&& (board_access(old, actor@, board@, "delete"@) is None ==> access_failure(old, actor@, board@, "delete"@, r))
    &&& (board_access(old, actor@, board@, "delete"@) matches Some((a, b)) ==> {
        if !task_in_board(old.tasks@, b, task_id) {
            fails_with(r, "not_found"@, "task not found in board"@)
        } else {
            &&& (task_at(old, b, task_id).parent_id is None || well_formed(old) && no_large_above(
                old,
                b,
                task_at(old, b, task_id).parent_id->0,
            ) ==> r is Ok)
            &&& (task_at(old, b, task_id).parent_id matches Some(p) && well_formed(old) && chain_up_to_date(
                old,
                b,
                p,
            ) && max_id(note_ids(old.notes@)) + old.tasks@.len() < i64::MAX ==> r is Ok)
            &&& (r matches Err(e) ==> sync_error(e))
            &&& r matches Ok(out) ==> {
                let parent = task_at(old, b, task_id).parent_id;
                &&& views(out.lines@) =~= seq![
                    "deleted "@ + nat_decimal(rows_of(old.tasks@, b, task_id)) + " row(s)"@,
                ]
                &&& new.users@ == old.users@
                &&& new.boards@ == old.boards@
                &&& new.members@ == old.members@
                &&& new.permissions@ == old.permissions@
                &&& exists|m: Seq<bool>|
                    #[trigger] deletion_marks(old.tasks@, b, task_id, m) && same_shape(
                        unmarked_tasks(old.tasks@, m),
                        new.tasks@,
                    ) && new.notes@.take(
                        old.notes@.filter(note_survives(old.tasks@, m)).len() as int,
                    ) == old.notes@.filter(note_survives(old.tasks@, m)) && (forall|v: i64|
                        !is_large(new, b, v) ==> #[trigger] deps_listed(new.dependencies@, v)
                            == deps_listed(old.dependencies@.filter(dep_survives(old.tasks@, m)), v)) && forall|k: int|
                        0 <= k < unmarked_tasks(old.tasks@, m).len() && !(unmarked_tasks(old.tasks@, m)[k].board_id == b
                            && (parent matches Some(p) && on_chain(new, b, p, unmarked_tasks(old.tasks@, m)[k].id)))
                            ==> #[trigger] new.tasks@[k] == unmarked_tasks(old.tasks@, m)[k]
                &&& (parent matches Some(p) ==> forall|k: nat|
                    up_to_date(new, b, #[trigger] ancestor(new, b, p, k)))
                &&& (well_formed(old) && large_tasks_consistent(old) ==> large_tasks_consistent(new))
            }
        }
    })
}

/// `task delete`: for an actor who may delete on the board, deletes task
/// `task_id` with its subtasks, their dependencies and notes, brings the
/// large tasks above it up to date, and reports `"deleted <n> row(s)"` for
/// the rows of the task itself.
pub fn cmd_task_delete(db: &mut Db, actor: &String, board: &String, task_id: i64, now: i64) -> (r:
    Result<Outcome, CmdError>)
    ensures
        task_delete_outcome(*old(db), *final(db), *actor, *board, task_id, now, r),
{
    let (_actor_id, board_id) = access_board(db, actor, board, "delete")?;
    let task = get_task(db, board_id, task_id)?;
    let mut work = copy_db(db);
    let mut marks: Vec<bool> = Vec::new();
    let mut count: usize = 0;
    let mut i: usize = 0;
    assert(work.tasks@.take(0) =~= Seq::<TaskRow>::empty());
    while i < work.tasks.len()
        invariant
            i <= work.tasks@.len(),
            marks@.len() == i,
            forall|k: int| 0 <= k < i ==> marks@[k] == (work.tasks@[k].id == task_id && work.tasks@[k].board_id == board_id),
            count == rows_of(work.tasks@.take(i as int), board_id, task_id),
            count <= i,
        decreases work.tasks@.len() - i,
    {
        assert(work.tasks@.take(i + 1).drop_last() =~= work.tasks@.take(i as int));
        let hit = work.tasks[i].id == task_id && work.tasks[i].board_id == board_id;
        marks.push(hit);
        if hit {
            count = count + 1;
        }
        i = i + 1;
    }
    assert(work.tasks@.take(work.tasks@.len() as int) =~= work.tasks@);
    let closed = close_marks(&work.tasks, marks);
    let ghost before = work;
    remove_marked(&mut work, &closed);
    proof {
        if well_formed(*db) {
            crate::wellformed::lemma_well_formed_kept(*db, before);
            crate::wellformed::lemma_well_formed_remove_marked(before, work, closed@);
        }
    }
    let ghost mid = work;
    proof {
        if task.parent_id is Some && well_formed(*db) && no_large_above(*db, board_id, task.parent_id->0) {
            assert(before.tasks@ == db.tasks@);
            crate::wellformed::lemma_remove_keeps_no_large(*db, mid, closed@, board_id, task.parent_id->0);
            assert(chain_ends(mid, board_id, task.parent_id->0));
        }
        if task.parent_id is Some && well_formed(*db) && chain_up_to_date(*db, board_id, task.parent_id->0)
            && max_id(note_ids(db.notes@)) + db.tasks@.len() < i64::MAX {
            let p = task.parent_id->0;
            let g = board_dep_edges(*db, board_id);
            assert(before.tasks@ == db.tasks@);
            assert(before.dependencies@ == db.dependencies@);
            lemma_up_to_date_fits(*db, board_id, p);
            crate::wellformed::lemma_remove_keeps_fits(*db, mid, closed@, board_id, p, g);
            crate::wellformed::lemma_unmarked_len(db.tasks@, closed@);
            crate::wellformed::lemma_filtered_notes_max(db.notes@, note_survives(db.tasks@, closed@));
            assert(chain_ends(mid, board_id, p));
            assert(notes_room(mid));
            assert(resync_fits(mid, board_id, p));
        }
    }
    sync_large_ancestors(&mut work, board_id, task.parent_id, now)?;
    proof {
        let fin = work;
        let m = closed@;
        assert(deletion_marks(db.tasks@, board_id, task_id, m));
        let kept = db.notes@.filter(note_survives(db.tasks@, m));
        assert(fin.notes@.take(kept.len() as int) =~= kept);
        if well_formed(*db) && large_tasks_consistent(*db) {
            assert forall|b2: i64, v: i64| #[trigger] large_consistent(fin, b2, v) by {
                if !(b2 == board_id && Some(v) == task.parent_id) {
                    assert(large_consistent(*db, b2, v));
                    crate::wellformed::lemma_remove_keeps_consistent(*db, mid, m, board_id, task_id, b2, v);
                }
                match task.parent_id {
                    None => {},
                    Some(p) => {
                        if b2 == board_id && Some(v) == task.parent_id {
                            assert(ancestor(mid, board_id, p, 0) == Some(p));
                        }
                        lemma_chain_sync_keeps(mid, fin, board_id, p, b2, v);
                    },
                }
            }
        }
        match task.parent_id {
            Some(p) => {
                lemma_same_shape_on_chain(mid, fin, board_id, p);
                assert forall|k: nat| up_to_date(fin, board_id, #[trigger] ancestor(fin, board_id, p, k)) by {
                    lemma_same_shape_ancestor(mid, fin, board_id, p, k);
                    assert(up_to_date(fin, board_id, ancestor(mid, board_id, p, k)));
                }
            },
            None => {},
        }
    }
    *db = work;
    let mut line = String::new();
    append_str(&mut line, "deleted ");
    append_usize(&mut line, count);
    append_str(&mut line, " row(s)");
    let mut lines: Vec<String> = Vec::new();
    lines.push(line);
    assert(views(lines@) =~= seq![line@]);
    Ok(Outcome { lines })
}

/// The error message for dependencies given to a large task.
pub open spec fn large_depends_msg() -> Seq<char> {
    "large task dependencies are managed by children"@
}

/// Notes only appended twice are only appended.
proof fn lemma_notes_appended(a: Seq<Note>, b: Seq<Note>, c: Seq<Note>)
    requires
        b.len() >= a.len(),
        b.take(a.len() as int) == a,
        c.len() >= b.len(),
        c.take(b.len() as int) == b,
    ensures
        c.len() >= a.len(),
        c.take(a.len() as int) == a,
{
    assert(c.take(a.len() as int) =~= c.take(b.len() as int).take(a.len() as int));
}

/// `t` is the row that `task add` inserts with id `id`.
pub open spec fn is_new_task(
    t: TaskRow,
    id: int,
    board_id: i64,
    title: Seq<char>,
    description: Seq<char>,
    size: Seq<char>,
    parent: Option<i64>,
    actor: i64,
    now: i64,
) -> bool {
    &&& t.id == id
    &&& t.board_id == board_id
    &&& t.title@ == title
    &&& t.description@ == description
    &&& t.size@ == size
    &&& t.parent_id == parent
    &&& t.created_by == Some(actor)
    &&& t.created_at == now
}

/// What `task add` does: the result `r` and, for a command that changes the
/// tables, the tables `new` that it leaves of `old`.
pub open spec fn task_add_outcome(
    old: Db,
    new: Db,
    actor: String,
    board: String,
    title: String,
    description: String,
    size: Seq<char>,
    parent: Option<i64>,
    assignee: Option<String>,
    depends: Option<Seq<i64>>,
    now: i64,
    r: Result<Outcome, CmdError>,
) -> bool {
    &&& (well_formed(old) ==> well_formed(new))
    &&& (crate::wellformed::tables_keyed(old) ==> crate::wellformed::tables_keyed(new))
    &&& (r is Err ==> new == old)
    &&& (board_access(old, actor@, board@, "create"@) is None ==> access_failure(old, actor@, board@, "create"@, r))
    &&& (board_access(old, actor@, board@, "create"@) matches Some((a, b)) ==> {
        if parent is Some && !task_in_board(old.tasks@, b, parent->0) {
            fails_with(r, "dependency"@, not_in_board_msg(parent->0, b))
        } else if size == "large"@ && depends is Some {
            fails_with(r, "dependency"@, large_depends_msg())
        } else {
            let id = (max_id(task_ids(old.tasks@)) + 1) as i64;
            let room = max_id(task_ids(old.tasks@)) < i64::MAX && user_room(old.users@, assignee);
            &&& (room && depends is Some ==> match dep_check(old, b, id, sorted_ids(depends->0)) {
                DepCheck::SelfDependency => fails_with(r, "dependency"@, "self dependency is not allowed"@),
                DepCheck::NotInBoard(d) => fails_with(r, "dependency"@, not_in_board_msg(d, b)),
                DepCheck::Cycle => fails_with(r, "dependency"@, "cycle detected"@),
                DepCheck::Fine => true,
            })
            &&& (r matches Err(e) ==> sync_error(e))
            &&& ((parent is None || well_formed(old) && no_large_above(old, b, parent->0)) && (size
                != "large"@ || well_formed(old)) && room && (depends is Some ==> dep_check(
                old,
                b,
                id,
                sorted_ids(depends->0),
            ) is Fine) ==> r is Ok)
            &&& (parent matches Some(p) && well_formed(old) && chain_up_to_date(old, b, p) && size == "large"@
                && depends is None && room && max_id(note_ids(old.notes@)) + 2 * (old.tasks@.len() + 1) + 1
                < i64::MAX ==> r is Ok)
            &&& (parent matches Some(p) && well_formed(old) && chain_up_to_date(old, b, p) && size != "large"@
                && room && max_id(note_ids(old.notes@)) + old.tasks@.len() + 1 < i64::MAX && (depends is Some
                ==> dep_check(old, b, id, sorted_ids(depends->0)) is Fine && !reaches(
                edges_with(old, b, id, sorted_ids(depends->0)),
                id,
                p,
            )) ==> r is Ok)
            &&& r matches Ok(out) ==> {
                let n = max_id(task_ids(old.tasks@)) + 1;
                let t = new.tasks@[old.tasks@.len() as int];
                &&& views(out.lines@) =~= seq!["created task "@ + int_decimal(n)]
                &&& new.users@ == with_user(old.users@, assignee)
                &&& new.notes@.len() >= old.notes@.len()
                &&& new.notes@.take(old.notes@.len() as int) == old.notes@
                &&& new.boards@ == old.boards@
                &&& new.members@ == old.members@
                &&& new.permissions@ == old.permissions@
                &&& new.tasks@.len() == old.tasks@.len() + 1
                &&& same_shape(old.tasks@, new.tasks@.take(old.tasks@.len() as int))
                &&& forall|k: int|
                    0 <= k < old.tasks@.len() && !(old.tasks@[k].board_id == b && (parent matches Some(p)
                        && on_chain(new, b, p, old.tasks@[k].id))) ==> #[trigger] new.tasks@[k] == old.tasks@[k]
                &&& is_new_task(t, n, b, title@, description@, size, parent, a, now)
                &&& (size != "large"@ ==> t.status@ == "pending"@)
                &&& (size != "large"@ || well_formed(old) ==> t.updated_by == Some(a) && t.updated_at == now)
                &&& (well_formed(old) && large_tasks_consistent(old) ==> large_tasks_consistent(new))
                &&& (size == "large"@ ==> up_to_date(new, b, Some(n as i64)))
                &&& forall|v: i64| v != n && !is_large(new, b, v) ==> #[trigger] deps_listed(
                    new.dependencies@,
                    v,
                ) == deps_listed(old.dependencies@, v)
                &&& t.assignee_id == match assignee {
                    Some(name) => user_id_named(new.users@, name@),
                    None => None,
                }
                &&& (depends is Some && size != "large"@ ==> deps_listed(
                    new.dependencies@,
                    n as i64,
                ) == sorted_ids(depends->0))
                &&& (parent matches Some(p) ==> forall|k: nat|
                    up_to_date(new, b, #[trigger] ancestor(new, b, p, k)))
            }
        }
    })
}

/// Adding a task that is not large under `parent`, then bringing the chain
/// above it up to date, leaves every large task up to date when all were
/// before.
proof fn lemma_add_keeps_consistent(
    old: Db,
    inserted: Db,
    mid: Db,
    fin: Db,
    row: TaskRow,
    b: i64,
    parent: Option<i64>,
    b2: i64,
    v: i64,
)
    requires
        well_formed(old),
        well_formed(mid),
        large_tasks_consistent(old),
        forall|j: int| 0 <= j < old.tasks@.len() ==> old.tasks@[j].id != row.id,
        inserted.tasks@ == old.tasks@.push(row),
        inserted.dependencies@ == old.dependencies@,
        row.board_id == b,
        row.parent_id == parent,
        row.size@ != "large"@,
        mid.tasks@ == inserted.tasks@,
        forall|u: i64| u != row.id ==> #[trigger] deps_listed(mid.dependencies@, u) == deps_listed(old.dependencies@, u),
        same_shape(mid.tasks@, fin.tasks@),
        parent is None ==> fin == mid,
        parent matches Some(p) ==> {
            &&& forall|u: i64|
                large_consistent(mid, b, u) && !on_chain(mid, b, p, u) ==> #[trigger] large_consistent(fin, b, u)
            &&& forall|k: nat| up_to_date(fin, b, #[trigger] ancestor(mid, b, p, k))
            &&& forall|u: i64|
                !is_large(mid, b, u) ==> #[trigger] deps_listed(fin.dependencies@, u) == deps_listed(mid.dependencies@, u)
            &&& forall|k: int|
                0 <= k < mid.tasks@.len() && !(mid.tasks@[k].board_id == b && on_chain(mid, b, p, mid.tasks@[k].id))
                    ==> #[trigger] fin.tasks@[k] == mid.tasks@[k]
        },
    ensures
        large_consistent(fin, b2, v),
{
    let n = row.id;
    let len = old.tasks@.len() as int;
    if v == n {
        lemma_same_shape_task_at(mid, fin, b2, n);
        if task_in_board(mid.tasks@, b2, n) {
            let q = choose|q: int| 0 <= q < mid.tasks@.len() && mid.tasks@[q].id == n && mid.tasks@[q].board_id == b2;
            assert(q == len);
            assert(first_task_in_board(mid.tasks@, b, n, len));
            lemma_first_task_exists(mid.tasks@, b, n);
            let f = choose|f: int| first_task_in_board(mid.tasks@, b, n, f);
            lemma_first_task_unique(mid.tasks@, b, n, f, len);
            assert(!is_large(mid, b, n));
        }
    } else {
        if !(b2 == b && Some(v) == parent) {
            assert(large_consistent(old, b2, v));
            crate::wellformed::lemma_consistent_push(old, inserted, row, b2, v);
            lemma_same_shape_refl(inserted.tasks@);
            lemma_consistent_local(inserted, mid, b2, v);
        }
        match parent {
            None => {},
            Some(p) => {
                if b2 == b && Some(v) == parent {
                    assert(ancestor(mid, b, p, 0) == Some(p));
                }
                lemma_chain_sync_keeps(mid, fin, b, p, b2, v);
            },
        }
    }
}

/// Adding a large task under `parent`, bringing it up to date and then the
/// chain above it, leaves every large task up to date when all were
/// before.
proof fn lemma_add_large_keeps_consistent(
    old: Db,
    inserted: Db,
    post: Db,
    fin: Db,
    row: TaskRow,
    b: i64,
    parent: Option<i64>,
    b2: i64,
    v: i64,
)
    requires
        well_formed(old),
        well_formed(post),
        large_tasks_consistent(old),
        forall|j: int| 0 <= j < old.tasks@.len() ==> old.tasks@[j].id != row.id,
        inserted.tasks@ == old.tasks@.push(row),
        inserted.dependencies@ == old.dependencies@,
        row.board_id == b,
        row.parent_id == parent,
        crate::task::sync_frame(inserted, post, b, row.id),
        same_shape(post.tasks@, fin.tasks@),
        parent is None ==> fin == post,
        parent matches Some(p) ==> {
            &&& forall|u: i64|
                large_consistent(post, b, u) && !on_chain(post, b, p, u) ==> #[trigger] large_consistent(fin, b, u)
            &&& forall|k: nat| up_to_date(fin, b, #[trigger] ancestor(post, b, p, k))
            &&& forall|u: i64|
                !is_large(post, b, u) ==> #[trigger] deps_listed(fin.dependencies@, u) == deps_listed(post.dependencies@, u)
            &&& forall|k: int|
                0 <= k < post.tasks@.len() && !(post.tasks@[k].board_id == b && on_chain(post, b, p, post.tasks@[k].id))
                    ==> #[trigger] fin.tasks@[k] == post.tasks@[k]
        },
        large_consistent(fin, b, row.id),
    ensures
        large_consistent(fin, b2, v),
{
    let n = row.id;
    let len = old.tasks@.len() as int;
    lemma_sync_frame_status_frame(inserted, post, b, n);
    if v == n {
        if b2 != b {
            lemma_same_shape_task_at(inserted, post, b2, n);
            lemma_same_shape_task_at(post, fin, b2, n);
            if task_in_board(inserted.tasks@, b2, n) {
                let q = choose|q: int| 0 <= q < inserted.tasks@.len() && inserted.tasks@[q].id == n && inserted.tasks@[q].board_id == b2;
                assert(q == len);
            }
        }
    } else if b2 == b && Some(v) == parent {
        let p = parent->0;
        assert(ancestor(post, b, p, 0) == Some(p));
        lemma_chain_sync_keeps(post, fin, b, p, b2, v);
    } else {
        assert(large_consistent(old, b2, v));
        crate::wellformed::lemma_consistent_push(old, inserted, row, b2, v);
        assert(inserted.tasks@[len] == row);
        assert forall|k: int|
            0 <= k < inserted.tasks@.len() && inserted.tasks@[k].board_id == b2 && (inserted.tasks@[k].id == v
                || inserted.tasks@[k].parent_id == Some(v)) implies #[trigger] post.tasks@[k] == inserted.tasks@[k] by {
            if k == len {
                assert(inserted.tasks@[k] == row);
            }
        }
        lemma_consistent_local(inserted, post, b2, v);
        match parent {
            None => {},
            Some(p) => {
                lemma_chain_sync_keeps(post, fin, b, p, b2, v);
            },
        }
    }
}

/// Adding a large task with a new id under `p` and bringing it up to date
/// keeps the chain from `p` fit to be brought up to date, when that chain
/// was up to date before and note ids have room.
proof fn lemma_large_insert_fits(old: Db, inserted: Db, post: Db, row: TaskRow, b: i64, p: i64)
    requires
        well_formed(old),
        well_formed(post),
        forall|j: int| 0 <= j < old.tasks@.len() ==> old.tasks@[j].id != row.id,
        inserted.tasks@ == old.tasks@.push(row),
        inserted.dependencies@ == old.dependencies@,
        inserted.notes@ == old.notes@,
        row.board_id == b,
        row.parent_id == Some(p),
        task_in_board(old.tasks@, b, p),
        chain_up_to_date(old, b, p),
        crate::task::sync_frame(inserted, post, b, row.id),
        post.notes@ == inserted.notes@,
        post.dependencies@ == inserted.dependencies@.filter(crate::task::deps_of_others(row.id))
            + crate::task::dep_rows(row.id, Seq::<i64>::empty()),
        max_id(note_ids(old.notes@)) + old.tasks@.len() + 1 < i64::MAX,
    ensures
        resync_fits(post, b, p),
{
    broadcast use vstd::seq_lib::group_filter_ensures;

    let id = row.id;
    crate::wellformed::lemma_insert_keeps_fits(old, inserted, row, b, p);
    let g = choose|g: spec_fn(i64, i64) -> bool|
        #[trigger] acyclic(g) && crate::task::edges_within(inserted, b, g)
            && crate::task::children_edges_in(inserted, b, p, g);
    lemma_sync_frame_status_frame(inserted, post, b, id);
    lemma_children_edges_same_shape(inserted, post, b, p, g);
    let kept = inserted.dependencies@.filter(crate::task::deps_of_others(id));
    assert(crate::task::dep_rows(id, Seq::<i64>::empty()) =~= Seq::<crate::store::Dependency>::empty());
    assert(post.dependencies@ =~= kept);
    assert forall|k: int| 0 <= k < post.dependencies@.len() implies inserted.dependencies@.contains(
        #[trigger] post.dependencies@[k],
    ) by {
        assert(kept.contains(kept[k]));
        inserted.dependencies@.lemma_filter_contains_rev(crate::task::deps_of_others(id), kept[k]);
    }
    crate::task::lemma_edges_within_sub(inserted, post, b, g);
    assert(chain_ends(post, b, p));
    assert(notes_room(post));
}

/// `task add`: for an actor who may create on the board, inserts a pending
/// task with the next free id, the given fields, and the assignee (created
/// when unknown); sets its dependencies when it is not large; brings the
/// large tasks it touches up to date; and reports `"created task <id>"`.
/// A parent that is not on the board, and dependencies given for a large
/// task, are `dependency` errors.
#[verifier::rlimit(60)]
pub fn cmd_task_add(
    db: &mut Db,
    actor: &String,
    board: &String,
    title: &String,
    description: &String,
    size: &String,
    parent: Option<i64>,
    assignee: Option<String>,
    depends: Option<Vec<i64>>,
    now: i64,
) -> (r: Result<Outcome, CmdError>)
    ensures
        task_add_outcome(*old(db), *final(db), *actor, *board, *title, *description, size@, parent, assignee, ids_view(depends), now, r),
{
    let (actor_id, board_id) = access_board(db, actor, board, "create")?;
    match parent {
        Some(p) => {
            ensure_task_in_board(db, board_id, p)?;
        },
        None => {},
    }
    let large = str_eq(size.as_str(), "large");
    if large && depends.is_some() {
        return Err(app_err_str("dependency", "large task dependencies are managed by children"));
    }
    let mut work = copy_db(db);
    let assignee_id = match &assignee {
        Some(name) => Some(get_or_create_user(&mut work, name)?),
        None => None,
    };
    let ghost users_after = work.users@;
    let ghost users_after_db = work;
    let id = next_task_id(&work.tasks)?;
    let row = TaskRow {
        id,
        board_id,
        title: title.clone(),
        description: description.clone(),
        size: size.clone(),
        parent_id: parent,
        assignee_id,
        status: String::from_str("pending"),
        created_by: Some(actor_id),
        updated_by: Some(actor_id),
        created_at: now,
        updated_at: now,
    };
    let ghost new_row = row;
    work.tasks.push(row);
    let ghost inserted = work;
    proof {
        lemma_max_id_bound(task_ids(db.tasks@));
        assert forall|k: int| 0 <= k < db.tasks@.len() implies db.tasks@[k].id < id by {
            assert(task_ids(db.tasks@)[k] == db.tasks@[k].id);
        }
        assert(first_task_in_board(inserted.tasks@, board_id, id, db.tasks@.len() as int));
        lemma_first_task_exists(inserted.tasks@, board_id, id);
        let f = choose|f: int| first_task_in_board(inserted.tasks@, board_id, id, f);
        lemma_first_task_unique(inserted.tasks@, board_id, id, f, db.tasks@.len() as int);
        lemma_same_shape_refl(inserted.tasks@);
        if well_formed(*db) {
            crate::wellformed::lemma_well_formed_kept(*db, users_after_db);
            crate::wellformed::lemma_well_formed_insert(users_after_db, inserted, new_row);
        }
    }
    match &depends {
        Some(ds) => {
            if !large {
                proof {
                    lemma_dep_check_new_row(*db, inserted, board_id, id, new_row, sorted_ids(ds@));
                }
                set_dependencies(&mut work, board_id, id, ds)?;
                proof {
                    lemma_deps_listed_own(inserted.dependencies@, id, sorted_ids(ds@));
                    assert forall|v: i64| v != id implies #[trigger] deps_listed(work.dependencies@, v)
                        == deps_listed(inserted.dependencies@, v) by {
                        lemma_deps_listed_others(inserted.dependencies@, id, sorted_ids(ds@), v);
                    }
                }
            }
        },
        None => {},
    }
    let ghost with_deps = work;
    proof {
        assert(forall|v: i64| v != id ==> #[trigger] deps_listed(with_deps.dependencies@, v)
            == deps_listed(db.dependencies@, v));
    }
    proof {
        if large && well_formed(*db) {
            assert(with_deps.tasks@ == inserted.tasks@);
            assert forall|k: int| 0 <= k < inserted.tasks@.len() implies (#[trigger] inserted.tasks@[k]).parent_id
                != Some(id) by {
                if k < db.tasks@.len() {
                    assert(inserted.tasks@[k] == db.tasks@[k]);
                    if db.tasks@[k].parent_id == Some(id) {
                        assert(task_exists(db.tasks@, id));
                    }
                } else {
                    if let Some(p) = parent {
                        let j = choose|j: int| 0 <= j < db.tasks@.len() && db.tasks@[j].id == p && db.tasks@[j].board_id
                            == board_id;
                    }
                }
            }
            lemma_no_children(inserted.tasks@, board_id, id);
            crate::task::lemma_sorted_ids_empty();
            let f = choose|f: int| first_task_in_board(inserted.tasks@, board_id, id, f);
            lemma_first_task_unique(inserted.tasks@, board_id, id, f, db.tasks@.len() as int);
            assert(task_at(with_deps, board_id, id).status@ == "pending"@);
            assert(dep_check(with_deps, board_id, id, Seq::<i64>::empty()) is Fine);
            if let Some(p) = parent {
                if no_large_above(*db, board_id, p) {
                    let j = choose|j: int| 0 <= j < db.tasks@.len() && db.tasks@[j].id == p && db.tasks@[j].board_id
                        == board_id;
                    assert(task_exists(db.tasks@, p));
                    lemma_insert_keeps_chain(*db, inserted, new_row, board_id, p);
                }
            }
        }
    }
    if large {
        let ghost pre = work;
        let up = sync_large_task(&mut work, board_id, id, now)?;
        proof {
            if well_formed(*db) {
                if let Some(p) = parent {
                    if no_large_above(*db, board_id, p) {
                        lemma_sync_frame_status_frame(pre, work, board_id, id);
                        lemma_same_shape_no_large(inserted, work, board_id, p);
                        assert(chain_ends(work, board_id, p));
                    }
                }
            }
            lemma_sync_frame_status_frame(pre, work, board_id, id);
            assert(pre.tasks@ == inserted.tasks@);
            let f = choose|f: int| first_task_in_board(pre.tasks@, board_id, id, f);
            lemma_first_task_unique(pre.tasks@, board_id, id, f, db.tasks@.len() as int);
            assert(parent_in_board(pre, board_id, id) == parent);
            if let Some(p) = parent {
                let j = choose|j: int| 0 <= j < db.tasks@.len() && db.tasks@[j].id == p && db.tasks@[j].board_id
                    == board_id;
                assert(p != id);
            }
            lemma_sync_makes_consistent(pre, work, board_id, id);
        }
        let ghost post = work;
        proof {
            if parent is Some && well_formed(*db) && chain_up_to_date(*db, board_id, parent->0)
                && max_id(note_ids(db.notes@)) + 2 * (db.tasks@.len() + 1) + 1 < i64::MAX {
                assert(pre == inserted);
                assert(task_at(pre, board_id, id).status@ == "pending"@);
                assert(post.notes@ == pre.notes@);
                assert(post.dependencies@ == inserted.dependencies@.filter(crate::task::deps_of_others(id))
                    + crate::task::dep_rows(id, Seq::<i64>::empty()));
                lemma_large_insert_fits(*db, inserted, post, new_row, board_id, parent->0);
            }
        }
        sync_large_ancestors(&mut work, board_id, up, now)?;
        proof {
            if let Some(u0) = up {
                lemma_sync_chain_consistent(post, work, board_id, u0, id);
                lemma_same_shape_on_chain(post, work, board_id, u0);
            }
            assert forall|k: int| 0 <= k < db.tasks@.len() && !(db.tasks@[k].board_id == board_id && (parent matches Some(p)
                && on_chain(work, board_id, p, db.tasks@[k].id))) implies #[trigger] work.tasks@[k] == db.tasks@[k] by {
                assert(pre.tasks@[k] == db.tasks@[k]);
                assert(post.tasks@[k] == pre.tasks@[k]);
            }
            lemma_same_shape_trans(pre.tasks@, post.tasks@, work.tasks@);
            lemma_notes_appended(pre.notes@, post.notes@, work.notes@);
            assert forall|v: i64| v != id && !is_large(work, board_id, v) implies #[trigger] deps_listed(
                work.dependencies@,
                v,
            ) == deps_listed(pre.dependencies@, v) by {
                assert(deps_listed(post.dependencies@, v) == deps_listed(pre.dependencies@, v));
            }
            if let Some(p) = parent {
                assert forall|k: nat| up_to_date(work, board_id, #[trigger] ancestor(work, board_id, p, k)) by {
                    lemma_same_shape_ancestor(post, work, board_id, p, k);
                }
                assert(chain_up_to_date(work, board_id, p));
            }
            if well_formed(*db) {
                let len = db.tasks@.len() as int;
                assert(task_at(pre, board_id, id).status@ == "pending"@);
                assert(post.tasks@ == pre.tasks@);
                if let Some(p) = parent {
                    let j = choose|j: int| 0 <= j < db.tasks@.len() && db.tasks@[j].id == p && db.tasks@[j].board_id
                        == board_id;
                    assert(task_exists(db.tasks@, p));
                    crate::wellformed::lemma_new_row_off_chain(*db, inserted, post, new_row, board_id, p);
                }
                assert(work.tasks@[len] == new_row);
            }
            if well_formed(*db) && large_tasks_consistent(*db) {
                assert(pre == inserted);
                assert(large_consistent(work, board_id, id));
                assert forall|b2: i64, v: i64| #[trigger] large_consistent(work, b2, v) by {
                    lemma_add_large_keeps_consistent(*db, inserted, post, work, new_row, board_id, parent, b2, v);
                }
            }
        }
    }
    let ghost mid = work;
    proof {
        assert(forall|v: i64| v != id && !is_large(mid, board_id, v) ==> #[trigger] deps_listed(
            mid.dependencies@,
            v,
        ) == deps_listed(db.dependencies@, v));
    }
    proof {
        assert(with_deps.notes@.take(with_deps.notes@.len() as int) =~= with_deps.notes@);
        lemma_same_shape_trans(inserted.tasks@, with_deps.tasks@, mid.tasks@);
        lemma_same_shape_task_at(with_deps, mid, board_id, id);
        lemma_same_shape_task_at(inserted, with_deps, board_id, id);
    }
    proof {
        if parent is Some && well_formed(*db) && no_large_above(*db, board_id, parent->0) {
            let p = parent->0;
            let j = choose|j: int| 0 <= j < db.tasks@.len() && db.tasks@[j].id == p && db.tasks@[j].board_id
                == board_id;
            assert(task_exists(db.tasks@, p));
            lemma_insert_keeps_chain(*db, inserted, new_row, board_id, p);
            lemma_same_shape_no_large(inserted, mid, board_id, p);
            assert(chain_ends(mid, board_id, p));
        }
        if parent is Some && well_formed(*db) && chain_up_to_date(*db, board_id, parent->0) && large
            && max_id(note_ids(db.notes@)) + 2 * (db.tasks@.len() + 1) + 1 < i64::MAX {
            let p = parent->0;
            assert(chain_up_to_date(mid, board_id, p));
            lemma_up_to_date_fits(mid, board_id, p);
            assert(acyclic(board_dep_edges(mid, board_id)));
            assert(chain_ends(mid, board_id, p));
            assert(notes_room(mid));
            assert(resync_fits(mid, board_id, p));
        }
        if parent is Some && well_formed(*db) && chain_up_to_date(*db, board_id, parent->0) && !large
            && max_id(note_ids(db.notes@)) + db.tasks@.len() + 1 < i64::MAX && (depends is Some ==> dep_check(
            *db,
            board_id,
            id,
            sorted_ids(depends->0@),
        ) is Fine && !reaches(edges_with(*db, board_id, id, sorted_ids(depends->0@)), id, parent->0)) {
            let p = parent->0;
            assert(mid == with_deps);
            if depends is None {
                assert(mid == inserted);
                crate::wellformed::lemma_insert_keeps_fits(*db, inserted, new_row, board_id, p);
            } else {
                let nd = sorted_ids(depends->0@);
                lemma_dep_check_new_row(*db, inserted, board_id, id, new_row, nd);
                crate::wellformed::lemma_insert_deps_keeps_fits(*db, inserted, mid, new_row, board_id, p, nd);
            }
            assert(chain_ends(mid, board_id, p));
            assert(notes_room(mid));
            assert(resync_fits(mid, board_id, p));
        }
    }
    sync_large_ancestors(&mut work, board_id, parent, now)?;
    proof {
        let fin = work;
        lemma_same_shape_trans(inserted.tasks@, mid.tasks@, fin.tasks@);
        if let Some(p) = parent {
            lemma_same_shape_on_chain(mid, fin, board_id, p);
            lemma_same_shape_on_chain(with_deps, mid, board_id, p);
        }
        assert forall|k: int| 0 <= k < db.tasks@.len() && !(db.tasks@[k].board_id == board_id && (parent matches Some(p)
            && on_chain(fin, board_id, p, db.tasks@[k].id))) implies #[trigger] fin.tasks@[k] == db.tasks@[k] by {
            assert(inserted.tasks@[k] == db.tasks@[k]);
            assert(mid.tasks@[k] == db.tasks@[k]);
        }
        if large {
            if let Some(p) = parent {
                lemma_sync_chain_consistent(mid, fin, board_id, p, id);
            }
        }
        assert forall|v: i64| v != id && !is_large(fin, board_id, v) implies #[trigger] deps_listed(
            fin.dependencies@,
            v,
        ) == deps_listed(db.dependencies@, v) by {
            lemma_same_shape_task_at(mid, fin, board_id, v);
            assert(deps_listed(mid.dependencies@, v) == deps_listed(db.dependencies@, v));
        }
        assert(fin.tasks@[db.tasks@.len() as int].id == id);
        assert(users_after_db.users@ == with_user(db.users@, assignee));
        assert(fin.users@ == with_user(db.users@, assignee));
        assert(with_deps.notes@ == db.notes@);
        lemma_notes_appended(db.notes@, mid.notes@, fin.notes@);
        assert forall|k: int| 0 <= k < db.tasks@.len() implies {
            &&& (#[trigger] fin.tasks@.take(db.tasks@.len() as int)[k]).id == db.tasks@[k].id
            &&& fin.tasks@.take(db.tasks@.len() as int)[k].board_id == db.tasks@[k].board_id
            &&& fin.tasks@.take(db.tasks@.len() as int)[k].parent_id == db.tasks@[k].parent_id
            &&& fin.tasks@.take(db.tasks@.len() as int)[k].size == db.tasks@[k].size
            &&& fin.tasks@.take(db.tasks@.len() as int)[k].title == db.tasks@[k].title
            &&& fin.tasks@.take(db.tasks@.len() as int)[k].description == db.tasks@[k].description
            &&& fin.tasks@.take(db.tasks@.len() as int)[k].assignee_id == db.tasks@[k].assignee_id
        } by {
            assert(inserted.tasks@[k] == db.tasks@[k]);
            assert(fin.tasks@[k].id == inserted.tasks@[k].id);
        }
        match parent {
            Some(p) => {
                assert forall|k: nat| up_to_date(fin, board_id, #[trigger] ancestor(fin, board_id, p, k)) by {
                    lemma_same_shape_ancestor(mid, fin, board_id, p, k);
                    assert(up_to_date(fin, board_id, ancestor(mid, board_id, p, k)));
                }
            },
            None => {},
        }
        if well_formed(*db) && large_tasks_consistent(*db) {
            if large {
                assert forall|b2: i64, v: i64| #[trigger] large_consistent(fin, b2, v) by {
                    assert(large_consistent(mid, b2, v));
                    if let Some(p) = parent {
                        lemma_chain_sync_keeps(mid, fin, board_id, p, b2, v);
                    }
                }
            } else {
                assert(mid == with_deps);
                assert forall|b2: i64, v: i64| #[trigger] large_consistent(fin, b2, v) by {
                    lemma_add_keeps_consistent(*db, inserted, mid, fin, new_row, board_id, parent, b2, v);
                }
            }
        }
    }
    proof {
        let fin = work;
        let len = db.tasks@.len() as int;
        if !large {
            assert(mid.tasks@[len] == new_row);
            assert(fin.tasks@[len] == mid.tasks@[len]);
        } else if well_formed(*db) {
            assert(mid.tasks@[len].updated_by == Some(actor_id) && mid.tasks@[len].updated_at == now);
            if let Some(p) = parent {
                let j = choose|j: int| 0 <= j < db.tasks@.len() && db.tasks@[j].id == p && db.tasks@[j].board_id
                    == board_id;
                assert(task_exists(db.tasks@, p));
                crate::wellformed::lemma_new_row_off_chain(*db, inserted, mid, new_row, board_id, p);
            }
            assert(fin.tasks@[len] == mid.tasks@[len]);
        }
    }
    *db = work;
    let mut line = String::new();
    append_str(&mut line, "created task ");
    append_i64(&mut line, id);
    let mut lines: Vec<String> = Vec::new();
    lines.push(line);
    assert(views(lines@) =~= seq![line@]);
    Ok(Outcome { lines })
}

/// The field after an edit: the new value when one is given, else the old.
pub open spec fn edited(new: Option<Seq<char>>, old: Seq<char>) -> Seq<char> {
    match new {
        Some(v) => v,
        None => old,
    }
}

/// Whether `s` is only white space.
fn is_blank(s: &String) -> (r: bool)
    ensures
        r == (trim(s@).len() == 0),
{
    let chars = chars_of(s.as_str());
    let t = trim_chars(&chars);
    t.len() == 0
}

/// An assignee name, unless it is only white space.
pub open spec fn nonblank(name: Option<String>) -> Option<String> {
    match name {
        Some(n) => if trim(n@).len() == 0 {
            None
        } else {
            Some(n)
        },
        None => None,
    }
}

/// The dependencies of board `b` with those of task `t` replaced by the
/// given list, sorted, when one is given.
pub open spec fn new_dep_graph(db: Db, b: i64, t: i64, depends: Option<Seq<i64>>) -> spec_fn(i64, i64) -> bool {
    match depends {
        Some(ds) => edges_with(db, b, t, sorted_ids(ds)),
        None => board_dep_edges(db, b),
    }
}

/// What `task edit` does: the result `r` and, for a command that changes the
/// tables, the tables `new` that it leaves of `old`.
pub open spec fn task_edit_outcome(
    old: Db,
    new: Db,
    actor: String,
    board: String,
    task_id: i64,
    title: Option<Seq<char>>,
    description: Option<Seq<char>>,
    size: Option<Seq<char>>,
    parent: Option<i64>,
    assignee: Option<String>,
    depends: Option<Seq<i64>>,
    now: i64,
    r: Result<Outcome, CmdError>,
) -> bool {
    &&& (well_formed(old) ==> well_formed(new))
    &&& (crate::wellformed::tables_keyed(old) ==> crate::wellformed::tables_keyed(new))
    &&& (r is Err ==> new == old)
    &&& (match user_id_named(old.users@, actor@) {
        None => fails_with(r, "auth"@, user_not_found_msg(actor@)),
        Some(a) => match selected_board(old, board@) {
            None => if crate::text::spec_parse_i64(board@) is None {
                fails_with(r, "input"@, "board selector must be board name or id"@)
            } else {
                fails_with(r, "not_found"@, "board not found"@)
            },
            Some(b) => {
        let old_t = task_at(old, b, task_id);
        let np = match parent {
            Some(p) => Some(p),
            None => old_t.parent_id,
        };
        let ns = edited(size, old_t.size@);
        if !task_in_board(old.tasks@, b, task_id) {
            fails_with(r, "not_found"@, "task not found in board"@)
        } else if !may_act(old, a, b, "update"@) {
            fails_with(r, "forbidden"@, "update denied"@)
        } else if np is Some && np->0 == task_id {
            fails_with(r, "dependency"@, "self parent is not allowed"@)
        } else if np is Some && !task_in_board(old.tasks@, b, np->0) {
            fails_with(r, "dependency"@, not_in_board_msg(np->0, b))
        } else if np is Some && !chain_ends_before(old, b, np->0, task_id) {
            fails_with(r, "dependency"@, "parent cycle detected"@)
        } else if ns == "large"@ && depends is Some {
            fails_with(r, "dependency"@, large_depends_msg())
        } else {
            let room = user_room(old.users@, nonblank(assignee));
            &&& (r matches Err(e) ==> sync_error(e))
            &&& (room && depends is Some ==> match dep_check(old, b, task_id, sorted_ids(depends->0)) {
                DepCheck::SelfDependency => fails_with(r, "dependency"@, "self dependency is not allowed"@),
                DepCheck::NotInBoard(d) => fails_with(r, "dependency"@, not_in_board_msg(d, b)),
                DepCheck::Cycle => fails_with(r, "dependency"@, "cycle detected"@),
                DepCheck::Fine => true,
            })
            &&& ((np is None || well_formed(old) && no_large_above(old, b, np->0)) && (old_t.parent_id
                == np || old_t.parent_id is None || well_formed(old) && no_large_above(
                old,
                b,
                old_t.parent_id->0,
            )) && ns != "large"@ && room && (depends is Some ==> dep_check(
                old,
                b,
                task_id,
                sorted_ids(depends->0),
            ) is Fine) ==> r is Ok)
            &&& ((np matches Some(p) && old_t.parent_id == np && well_formed(old) && chain_up_to_date(old, b, p))
                && ns != "large"@ && room && (depends is Some ==> dep_check(
                old,
                b,
                task_id,
                sorted_ids(depends->0),
            ) is Fine) && max_id(note_ids(old.notes@)) + old.tasks@.len() < i64::MAX ==> r is Ok)
            &&& ((np is None || (np matches Some(p) && chain_up_to_date(old, b, p) && !reaches(
                new_dep_graph(old, b, task_id, depends),
                task_id,
                p,
            ))) && (old_t.parent_id matches Some(op) ==> chain_up_to_date(old, b, op)) && old_t.parent_id != np
                && well_formed(old) && ns != "large"@ && room && (depends is Some ==> dep_check(
                old,
                b,
                task_id,
                sorted_ids(depends->0),
            ) is Fine) && max_id(note_ids(old.notes@)) + 2 * old.tasks@.len() + 1 < i64::MAX ==> r is Ok)
            &&& ((np is None || (np matches Some(p) && old_t.parent_id == np && chain_up_to_date(old, b, p)))
                && well_formed(old) && ns == "large"@ && depends is None && room && dep_check(
                old,
                b,
                task_id,
                sorted_ids(child_ids(old.tasks@, b, task_id)),
            ) is Fine && max_id(note_ids(old.notes@)) + 2 * (old.tasks@.len() + 1) + 1 < i64::MAX ==> r is Ok)
            &&& r matches Ok(out) ==> {
                let t = task_at(new, b, task_id);
                &&& views(out.lines@) =~= seq!["updated task "@ + int_decimal(task_id as int)]
                &&& new.users@ == with_user(old.users@, nonblank(assignee))
                &&& new.notes@.len() >= old.notes@.len()
                &&& new.notes@.take(old.notes@.len() as int) == old.notes@
                &&& new.boards@ == old.boards@
                &&& new.members@ == old.members@
                &&& new.permissions@ == old.permissions@
                &&& task_in_board(new.tasks@, b, task_id)
                &&& t.title@ == edited(title, old_t.title@)
                &&& t.description@ == edited(description, old_t.description@)
                &&& t.size@ == ns
                &&& t.parent_id == np
                &&& t.created_by == old_t.created_by
                &&& t.created_at == old_t.created_at
                &&& (ns != "large"@ ==> t.status == old_t.status)
                &&& (ns != "large"@ || well_formed(old) ==> t.updated_at == now && t.updated_by == if t.status@
                    == old_t.status@ {
                    Some(a)
                } else {
                    None
                })
                &&& forall|v: i64| (v != task_id || depends is None) && !is_large(new, b, v)
                    ==> #[trigger] deps_listed(new.dependencies@, v) == deps_listed(old.dependencies@, v)
                &&& new.tasks@.len() == old.tasks@.len()
                &&& forall|k: int| 0 <= k < old.tasks@.len() && old.tasks@[k].id != task_id ==> {
                    &&& (old.tasks@[k].size@ != "large"@ ==> #[trigger] new.tasks@[k] == old.tasks@[k])
                    &&& new.tasks@[k].id == old.tasks@[k].id
                    &&& new.tasks@[k].board_id == old.tasks@[k].board_id
                    &&& new.tasks@[k].parent_id == old.tasks@[k].parent_id
                    &&& new.tasks@[k].size == old.tasks@[k].size
                    &&& new.tasks@[k].title == old.tasks@[k].title
                    &&& new.tasks@[k].description == old.tasks@[k].description
                    &&& new.tasks@[k].assignee_id == old.tasks@[k].assignee_id
                }
                &&& (ns == "large"@ ==> up_to_date(new, b, Some(task_id)))
                &&& (well_formed(old) && large_tasks_consistent(old) ==> large_tasks_consistent(new))
                &&& (old_t.parent_id matches Some(op) ==> forall|k: nat|
                    up_to_date(new, b, #[trigger] ancestor(new, b, op, k)))
                &&& t.assignee_id == match assignee {
                    Some(name) => if trim(name@).len() == 0 {
                        None
                    } else {
                        user_id_named(new.users@, name@)
                    },
                    None => old_t.assignee_id,
                }
                &&& (depends is Some && ns != "large"@ ==> deps_listed(
                    new.dependencies@,
                    task_id,
                ) == sorted_ids(depends->0))
                &&& (np matches Some(p) ==> forall|k: nat|
                    up_to_date(new, b, #[trigger] ancestor(new, b, p, k)))
            }
        }
    },
        },
    })
}

/// Making task `t` (the row at `i`) large in place and bringing it up to
/// date keeps the chain above it fit to be brought up to date, when that
/// chain was up to date before and note ids have room.
proof fn lemma_large_edit_fits(old: Db, updated: Db, post: Db, i: int, row: TaskRow, b: i64, p: i64, nd: Seq<i64>)
    requires
        well_formed(old),
        well_formed(post),
        0 <= i < old.tasks@.len(),
        row.id == old.tasks@[i].id,
        row.board_id == old.tasks@[i].board_id,
        row.parent_id == old.tasks@[i].parent_id,
        updated.tasks@ == old.tasks@.update(i, row),
        updated.dependencies@ == old.dependencies@,
        forall|k: nat| #[trigger] ancestor(old, b, p, k) != Some(row.id),
        chain_up_to_date(old, b, p),
        crate::task::sync_frame(updated, post, b, row.id),
        post.dependencies@ == updated.dependencies@.filter(crate::task::deps_of_others(row.id))
            + crate::task::dep_rows(row.id, nd),
        notes_room(post),
    ensures
        resync_fits(post, b, p),
{
    broadcast use vstd::seq_lib::group_filter_ensures;

    let t = row.id;
    let mix = Db { tasks: updated.tasks, ..post };
    lemma_sync_frame_status_frame(updated, post, b, t);
    assert(same_links(post.tasks@, mix.tasks@)) by {
        assert forall|k: int| 0 <= k < post.tasks@.len() implies (#[trigger] mix.tasks@[k]).id == post.tasks@[k].id
            && mix.tasks@[k].board_id == post.tasks@[k].board_id && mix.tasks@[k].parent_id
            == post.tasks@[k].parent_id by {
            assert(post.tasks@[k].id == updated.tasks@[k].id);
        }
    }
    lemma_well_formed_same_links(post, mix);
    let kept = updated.dependencies@.filter(crate::task::deps_of_others(t));
    assert forall|m: int|
        0 <= m < old.dependencies@.len() && old.dependencies@[m].task_id != t
            implies mix.dependencies@.contains(#[trigger] old.dependencies@[m]) by {
        let d = old.dependencies@[m];
        assert(updated.dependencies@[m] == d);
        assert(kept.contains(d));
        let m2 = choose|m2: int| 0 <= m2 < kept.len() && kept[m2] == d;
        assert(mix.dependencies@[m2] == d);
    }
    crate::wellformed::lemma_edit_keeps_fits(old, mix, i, row, b, p);
    let g = choose|g: spec_fn(i64, i64) -> bool|
        #[trigger] acyclic(g) && crate::task::edges_within(mix, b, g) && crate::task::children_edges_in(mix, b, p, g);
    assert(same_shape(mix.tasks@, post.tasks@));
    lemma_edges_within_same(mix, post, b, g);
    lemma_children_edges_same_shape(mix, post, b, p, g);
    assert(chain_ends(post, b, p));
}

/// Making task `t` (the row at `i`) large, bringing it up to date and then
/// the chain above its new parent, leaves up to date every large task that
/// was so, but the old parent when the task moved away from it.
proof fn lemma_edit_large_keeps_consistent(
    old: Db,
    d1: Db,
    post: Db,
    d2: Db,
    i: int,
    row: TaskRow,
    b: i64,
    op: Option<i64>,
    b2: i64,
    v: i64,
)
    requires
        well_formed(old),
        well_formed(post),
        large_tasks_consistent(old),
        0 <= i < old.tasks@.len(),
        old.tasks@[i].id == row.id,
        old.tasks@[i].board_id == b,
        old.tasks@[i].parent_id == op,
        row.board_id == b,
        d1.tasks@ == old.tasks@.update(i, row),
        d1.dependencies@ == old.dependencies@,
        crate::task::sync_frame(d1, post, b, row.id),
        large_consistent(post, b, row.id),
        same_shape(post.tasks@, d2.tasks@),
        row.parent_id is None ==> d2 == post,
        row.parent_id matches Some(p) ==> {
            &&& forall|u: i64|
                large_consistent(post, b, u) && !on_chain(post, b, p, u) ==> #[trigger] large_consistent(d2, b, u)
            &&& forall|k: nat| up_to_date(d2, b, #[trigger] ancestor(post, b, p, k))
            &&& forall|u: i64|
                !is_large(post, b, u) ==> #[trigger] deps_listed(d2.dependencies@, u) == deps_listed(post.dependencies@, u)
            &&& forall|k: int|
                0 <= k < post.tasks@.len() && !(post.tasks@[k].board_id == b && on_chain(post, b, p, post.tasks@[k].id))
                    ==> #[trigger] d2.tasks@[k] == post.tasks@[k]
        },
        !(b2 == b && Some(v) == op && op != row.parent_id),
    ensures
        large_consistent(d2, b2, v),
{
    let t = row.id;
    let np = row.parent_id;
    lemma_sync_frame_status_frame(d1, post, b, t);
    if v == t {
        if b2 != b {
            lemma_same_shape_task_at(d1, post, b2, t);
            if task_in_board(d1.tasks@, b2, t) {
                let q = choose|q: int| 0 <= q < d1.tasks@.len() && d1.tasks@[q].id == t && d1.tasks@[q].board_id == b2;
                assert(old.tasks@[q].id == old.tasks@[i].id);
            }
        }
        if let Some(p) = np {
            lemma_chain_sync_keeps(post, d2, b, p, b2, v);
        }
    } else if b2 == b && Some(v) == np {
        let p = np->0;
        assert(ancestor(post, b, p, 0) == Some(p));
        lemma_chain_sync_keeps(post, d2, b, p, b2, v);
    } else {
        assert(large_consistent(old, b2, v));
        assert forall|k: int|
            0 <= k < old.tasks@.len() ==> (#[trigger] d1.tasks@[k]).id == old.tasks@[k].id
                && d1.tasks@[k].board_id == old.tasks@[k].board_id by {}
        assert forall|k: int|
            0 <= k < old.tasks@.len() && old.tasks@[k].board_id == b2 && (old.tasks@[k].id == v
                || old.tasks@[k].parent_id == Some(v) || d1.tasks@[k].parent_id == Some(v))
                implies #[trigger] d1.tasks@[k] == old.tasks@[k] by {
            assert(k != i);
        }
        lemma_consistent_local_rows(old, d1, b2, v);
        assert forall|k: int|
            0 <= k < d1.tasks@.len() && d1.tasks@[k].board_id == b2 && (d1.tasks@[k].id == v
                || d1.tasks@[k].parent_id == Some(v)) implies #[trigger] post.tasks@[k] == d1.tasks@[k] by {
            if d1.tasks@[k].id == t && d1.tasks@[k].board_id == b {
                assert(old.tasks@[k].id == old.tasks@[i].id);
                assert(k == i);
            }
        }
        lemma_consistent_local(d1, post, b2, v);
        if let Some(p) = np {
            lemma_chain_sync_keeps(post, d2, b, p, b2, v);
        }
    }
}

/// Moving task `t` (the row at `i` of `old`, `row` after the change, `d1`
/// once its dependencies are set) under a new parent keeps the chains above
/// its old and its new parent fit to be brought up to date in
/// [`crate::wellformed::moved_graph`].
proof fn lemma_move_fits_point(
    old: Db,
    updated: Db,
    d1: Db,
    i: int,
    row: TaskRow,
    b: i64,
    op: Option<i64>,
    depends: Option<Seq<i64>>,
)
    requires
        well_formed(old),
        well_formed(d1),
        0 <= i < old.tasks@.len(),
        row.id == old.tasks@[i].id,
        row.board_id == old.tasks@[i].board_id,
        row.board_id == b,
        old.tasks@[i].parent_id == op,
        parent_in_board(old, b, row.id) == op,
        updated.tasks@ == old.tasks@.update(i, row),
        updated.dependencies@ == old.dependencies@,
        d1.tasks@ == updated.tasks@,
        depends is None ==> d1 == updated,
        depends matches Some(ds) ==> d1.dependencies@ == updated.dependencies@.filter(
            crate::task::deps_of_others(row.id),
        ) + crate::task::dep_rows(row.id, sorted_ids(ds)),
        row.parent_id matches Some(p) ==> chain_up_to_date(old, b, p) && !reaches(
            new_dep_graph(old, b, row.id, depends),
            row.id,
            p,
        ) && chain_ends_before(old, b, p, row.id),
        op matches Some(o) ==> chain_up_to_date(old, b, o),
    ensures
        acyclic(crate::wellformed::moved_graph(d1, b, row.id, row.parent_id)),
        crate::task::edges_within(d1, b, crate::wellformed::moved_graph(d1, b, row.id, row.parent_id)),
        op matches Some(o) ==> crate::task::children_edges_in(
            d1,
            b,
            o,
            crate::wellformed::moved_graph(d1, b, row.id, row.parent_id),
        ),
        row.parent_id matches Some(p) ==> crate::task::children_edges_in(
            d1,
            b,
            p,
            crate::wellformed::moved_graph(d1, b, row.id, row.parent_id),
        ),
{
    broadcast use vstd::seq_lib::group_filter_ensures;

    let t = row.id;
    let h = new_dep_graph(old, b, t, depends);
    let nd = match depends {
        Some(ds) => sorted_ids(ds),
        None => Seq::<i64>::empty(),
    };
    assert forall|j: int| 0 <= j < old.tasks@.len() implies (#[trigger] updated.tasks@[j]).id == old.tasks@[j].id
        && updated.tasks@[j].board_id == old.tasks@[j].board_id by {}
    lemma_dep_check_same_rows(old, updated, b, t, nd);
    if depends is Some {
        crate::task::lemma_new_edges_checked(updated, d1, b, t, nd);
    }
    assert forall|x: i64, y: i64| #[trigger] board_dep_edges(d1, b)(x, y) implies h(x, y) by {
        if depends is Some {
            assert(edges_with(updated, b, t, nd)(x, y));
        } else {
            assert(board_dep_edges(updated, b)(x, y));
        }
    }
    let kept = updated.dependencies@.filter(crate::task::deps_of_others(t));
    assert forall|m: int|
        0 <= m < old.dependencies@.len() && old.dependencies@[m].task_id != t
            implies d1.dependencies@.contains(#[trigger] old.dependencies@[m]) by {
        let d = old.dependencies@[m];
        if depends is Some {
            assert(updated.dependencies@[m] == d);
            assert(kept.contains(d));
            let m2 = choose|m2: int| 0 <= m2 < kept.len() && kept[m2] == d;
            assert(d1.dependencies@[m2] == d);
        } else {
            assert(d1.dependencies@[m] == d);
        }
    }
    if let Some(o) = op {
        assert(chain_ends(old, b, t));
        lemma_parent_chain_avoids(old, b, t, o);
        crate::wellformed::lemma_move_keeps_fits(old, d1, i, row, b, o, h);
    }
    if let Some(p) = row.parent_id {
        lemma_chain_ends_before_avoids(old, b, p, t);
        crate::wellformed::lemma_move_keeps_fits(old, d1, i, row, b, p, h);
    }
    if op is None && row.parent_id is None {
        assert(acyclic(board_dep_edges(d1, b)));
    }
}

/// A row changed in place, off the chain of parents from `s` before the
/// change, is off that chain in tables of the same shape after it.
proof fn lemma_off_chain(old: Db, updated: Db, mid: Db, i: int, row: TaskRow, b: i64, s: i64)
    requires
        0 <= i < old.tasks@.len(),
        row.id == old.tasks@[i].id,
        row.board_id == old.tasks@[i].board_id,
        updated.tasks@ == old.tasks@.update(i, row),
        forall|k: nat| #[trigger] ancestor(old, b, s, k) != Some(row.id),
        same_shape(updated.tasks@, mid.tasks@),
    ensures
        !on_chain(mid, b, s, row.id),
{
    lemma_update_keeps_chain(old, updated, i, row, b, s);
    lemma_same_shape_on_chain(updated, mid, b, s);
    if on_chain(updated, b, s, row.id) {
        let j = choose|j: nat| #[trigger] ancestor(updated, b, s, j) == Some(row.id);
        assert(ancestor(old, b, s, j) == Some(row.id));
    }
}

/// Changing the row of task `t` (at `i`) so that it is not large, then
/// bringing the chains above its old and its new parent up to date, leaves
/// every large task up to date when all were before.
proof fn lemma_edit_keeps_consistent(
    old: Db,
    d1: Db,
    d3: Db,
    fin: Db,
    i: int,
    row: TaskRow,
    b: i64,
    op: Option<i64>,
    b2: i64,
    v: i64,
)
    requires
        well_formed(old),
        well_formed(d1),
        well_formed(d3),
        large_tasks_consistent(old),
        0 <= i < old.tasks@.len(),
        old.tasks@[i].id == row.id,
        old.tasks@[i].board_id == b,
        old.tasks@[i].parent_id == op,
        row.board_id == b,
        row.size@ != "large"@,
        d1.tasks@ == old.tasks@.update(i, row),
        forall|u: i64| u != row.id ==> #[trigger] deps_listed(d1.dependencies@, u) == deps_listed(old.dependencies@, u),
        same_shape(d1.tasks@, d3.tasks@),
        same_shape(d3.tasks@, fin.tasks@),
        !(op is Some && op != row.parent_id) ==> d3 == d1,
        op is Some && op != row.parent_id ==> {
            let o = op->0;
            &&& forall|u: i64|
                large_consistent(d1, b, u) && !on_chain(d1, b, o, u) ==> #[trigger] large_consistent(d3, b, u)
            &&& forall|k: nat| up_to_date(d3, b, #[trigger] ancestor(d1, b, o, k))
            &&& forall|u: i64|
                !is_large(d1, b, u) ==> #[trigger] deps_listed(d3.dependencies@, u) == deps_listed(d1.dependencies@, u)
            &&& forall|k: int|
                0 <= k < d1.tasks@.len() && !(d1.tasks@[k].board_id == b && on_chain(d1, b, o, d1.tasks@[k].id))
                    ==> #[trigger] d3.tasks@[k] == d1.tasks@[k]
        },
        row.parent_id is None ==> fin == d3,
        row.parent_id matches Some(p) ==> {
            &&& forall|u: i64|
                large_consistent(d3, b, u) && !on_chain(d3, b, p, u) ==> #[trigger] large_consistent(fin, b, u)
            &&& forall|k: nat| up_to_date(fin, b, #[trigger] ancestor(d3, b, p, k))
            &&& forall|u: i64|
                !is_large(d3, b, u) ==> #[trigger] deps_listed(fin.dependencies@, u) == deps_listed(d3.dependencies@, u)
            &&& forall|k: int|
                0 <= k < d3.tasks@.len() && !(d3.tasks@[k].board_id == b && on_chain(d3, b, p, d3.tasks@[k].id))
                    ==> #[trigger] fin.tasks@[k] == d3.tasks@[k]
        },
    ensures
        large_consistent(fin, b2, v),
{
    let t = row.id;
    let np = row.parent_id;
    if v == t {
        lemma_same_shape_task_at(d1, d3, b2, t);
        lemma_same_shape_task_at(d3, fin, b2, t);
        if task_in_board(d1.tasks@, b2, t) {
            let q = choose|q: int| 0 <= q < d1.tasks@.len() && d1.tasks@[q].id == t && d1.tasks@[q].board_id == b2;
            assert(d1.tasks@[i].id == t);
            assert(q == i);
            lemma_first_task_exists(d1.tasks@, b2, t);
            let f = choose|f: int| first_task_in_board(d1.tasks@, b2, t, f);
            assert(d1.tasks@[f].id == d1.tasks@[i].id);
            assert(!is_large(d1, b2, t));
        }
    } else if b2 == b && Some(v) == np {
        let p = np->0;
        assert(ancestor(d3, b, p, 0) == Some(p));
        lemma_chain_sync_keeps(d3, fin, b, p, b2, v);
    } else {
        if !(b2 == b && Some(v) == op) {
            assert(large_consistent(old, b2, v));
            assert forall|k: int|
                0 <= k < old.tasks@.len() ==> (#[trigger] d1.tasks@[k]).id == old.tasks@[k].id
                    && d1.tasks@[k].board_id == old.tasks@[k].board_id by {}
            assert forall|k: int|
                0 <= k < old.tasks@.len() && old.tasks@[k].board_id == b2 && (old.tasks@[k].id == v
                    || old.tasks@[k].parent_id == Some(v) || d1.tasks@[k].parent_id == Some(v))
                    implies #[trigger] d1.tasks@[k] == old.tasks@[k] by {
                assert(k != i);
            }
            lemma_consistent_local_rows(old, d1, b2, v);
        }
        if op is Some && op != np {
            let o = op->0;
            if b2 == b && Some(v) == op {
                assert(ancestor(d1, b, o, 0) == Some(o));
            }
            lemma_chain_sync_keeps(d1, d3, b, o, b2, v);
        }
        match np {
            None => {},
            Some(p) => {
                lemma_chain_sync_keeps(d3, fin, b, p, b2, v);
            },
        }
    }
}

/// `task edit`: for an actor who may update on the board, changes the given
/// fields of task `task_id` (an assignee that is only white space removes
/// the assignee; an unknown one is created), sets its dependencies when
/// given and it is not large, brings the large tasks it touches up to
/// date, and reports `"updated task <id>"`. The new parent is checked as
/// [`ensure_parent_assignment`] does; dependencies given for a large task
/// are a `dependency` error.
#[verifier::rlimit(100)]
#[verifier::spinoff_prover]
pub fn cmd_task_edit(
    db: &mut Db,
    actor: &String,
    board: &String,
    task_id: i64,
    title: Option<String>,
    description: Option<String>,
    size: Option<String>,
    parent: Option<i64>,
    assignee: Option<String>,
    depends: Option<Vec<i64>>,
    now: i64,
) -> (r: Result<Outcome, CmdError>)
    ensures
        task_edit_outcome(*old(db), *final(db), *actor, *board, task_id, opt_view(title), opt_view(description), opt_view(size), parent, assignee, ids_view(depends), now, r),
{
    let actor_id = get_user_id(db, actor)?;
    let board_id = resolve_board_id(db, board)?;
    let old_task = get_task(db, board_id, task_id)?;
    proof {
        reveal_strlit("update");
        reveal_strlit(" denied");
        reveal_strlit("update denied");
        assert("update"@ + " denied"@ =~= "update denied"@);
        assert(crate::auth::is_action("update"@)) by {
            assert(crate::auth::action_names()[2] == "update"@);
        }
    }
    require(db, actor_id, board_id, "update")?;
    let new_parent = match parent {
        Some(p) => Some(p),
        None => old_task.parent_id,
    };
    ensure_parent_assignment(db, board_id, task_id, new_parent)?;
    let new_size: String = match &size {
        Some(s) => s.clone(),
        None => old_task.size.clone(),
    };
    let large = str_eq(new_size.as_str(), "large");
    if large && depends.is_some() {
        return Err(app_err_str("dependency", "large task dependencies are managed by children"));
    }
    let mut work = copy_db(db);
    let assignee_id = match &assignee {
        Some(name) => {
            if is_blank(name) {
                None
            } else {
                Some(get_or_create_user(&mut work, name)?)
            }
        },
        None => old_task.assignee_id,
    };
    let ghost users_after = work.users@;
    let i = match find_task_in_board_at(&work, board_id, task_id) {
        Some(i) => i,
        None => {
            return Err(app_err_str("not_found", "task not found in board"));
        },
    };
    let mut row = copy_task(&work.tasks[i]);
    row.title = match &title {
        Some(t) => t.clone(),
        None => old_task.title.clone(),
    };
    row.description = match &description {
        Some(d) => d.clone(),
        None => old_task.description.clone(),
    };
    row.size = new_size;
    row.parent_id = new_parent;
    row.assignee_id = assignee_id;
    row.updated_by = Some(actor_id);
    row.updated_at = now;
    let ghost new_row = row;
    let ghost before_set = work.tasks@;
    work.tasks.set(i, row);
    let ghost updated = work;
    proof {
        assert(first_task_in_board(updated.tasks@, board_id, task_id, i as int));
        lemma_first_task_exists(updated.tasks@, board_id, task_id);
        let f = choose|f: int| first_task_in_board(updated.tasks@, board_id, task_id, f);
        lemma_first_task_unique(updated.tasks@, board_id, task_id, f, i as int);
        lemma_same_shape_refl(updated.tasks@);
        if well_formed(*db) {
            assert(before_set == db.tasks@);
            assert(updated.tasks@ == db.tasks@.update(i as int, new_row));
            lemma_well_formed_reparent(*db, updated, i as int, new_row);
        }
    }
    match &depends {
        Some(ds) => {
            if !large {
                proof {
                    assert forall|j: int| 0 <= j < db.tasks@.len() implies (#[trigger] updated.tasks@[j]).id
                        == db.tasks@[j].id && updated.tasks@[j].board_id == db.tasks@[j].board_id by {
                        assert(before_set == db.tasks@);
                    }
                    lemma_dep_check_same_rows(*db, updated, board_id, task_id, sorted_ids(ds@));
                }
                set_dependencies(&mut work, board_id, task_id, ds)?;
                proof {
                    lemma_deps_listed_own(updated.dependencies@, task_id, sorted_ids(ds@));
                    assert forall|v: i64| v != task_id implies #[trigger] deps_listed(work.dependencies@, v)
                        == deps_listed(updated.dependencies@, v) by {
                        lemma_deps_listed_others(updated.dependencies@, task_id, sorted_ids(ds@), v);
                    }
                }
            }
        },
        None => {},
    }
    let ghost d1 = work;
    proof {
        assert(updated.dependencies@ == db.dependencies@);
        assert(forall|v: i64| (v != task_id || depends is None) ==> #[trigger] deps_listed(
            d1.dependencies@,
            v,
        ) == deps_listed(db.dependencies@, v));
    }
    if large {
        let ghost pre = work;
        proof {
            if depends is None && well_formed(*db) && dep_check(
                *db,
                board_id,
                task_id,
                sorted_ids(child_ids(db.tasks@, board_id, task_id)),
            ) is Fine {
                assert(pre.tasks@ == updated.tasks@);
                assert(updated.tasks@ == db.tasks@.update(i as int, new_row));
                assert(chain_ends(*db, board_id, task_id));
                if old_task.parent_id == Some(task_id) {
                    lemma_parent_chain_avoids(*db, board_id, task_id, task_id);
                    assert(ancestor(*db, board_id, task_id, 0) == Some(task_id));
                }
                assert forall|k: int|
                    0 <= k < db.tasks@.len() && ((#[trigger] db.tasks@[k]).board_id == board_id
                        && db.tasks@[k].parent_id == Some(task_id) || pre.tasks@[k].board_id == board_id
                        && pre.tasks@[k].parent_id == Some(task_id)) implies pre.tasks@[k] == db.tasks@[k] by {
                    assert(k != i);
                }
                crate::task::lemma_children_local(db.tasks@, pre.tasks@, board_id, task_id);
                lemma_dep_check_same_rows(
                    *db,
                    pre,
                    board_id,
                    task_id,
                    sorted_ids(child_ids(db.tasks@, board_id, task_id)),
                );
            }
        }
        let up = sync_large_task(&mut work, board_id, task_id, now)?;
        proof {
            lemma_sync_frame_status_frame(pre, work, board_id, task_id);
            assert(pre.tasks@ == updated.tasks@);
            assert(first_task_in_board(pre.tasks@, board_id, task_id, i as int));
            let f = choose|f: int| first_task_in_board(pre.tasks@, board_id, task_id, f);
            lemma_first_task_unique(pre.tasks@, board_id, task_id, f, i as int);
            assert(parent_in_board(pre, board_id, task_id) == new_parent);
            lemma_sync_makes_consistent(pre, work, board_id, task_id);
        }
        let ghost post = work;
        proof {
            if old_task.parent_id == new_parent && new_parent is Some && depends is None && well_formed(*db)
                && chain_up_to_date(*db, board_id, new_parent->0) && max_id(note_ids(db.notes@)) + 2 * (
            db.tasks@.len() + 1) + 1 < i64::MAX {
                let p = new_parent->0;
                lemma_parent_chain_avoids(*db, board_id, task_id, p);
                if post.notes@ != pre.notes@ {
                    lemma_note_push_max(pre.notes@, post.notes@.last());
                }
                assert(notes_room(post));
                lemma_large_edit_fits(
                    *db,
                    updated,
                    post,
                    i as int,
                    new_row,
                    board_id,
                    p,
                    sorted_ids(child_ids(pre.tasks@, board_id, task_id)),
                );
            }
        }
        sync_large_ancestors(&mut work, board_id, up, now)?;
        proof {
            if let Some(u0) = up {
                lemma_sync_chain_consistent(post, work, board_id, u0, task_id);
            }
            if let Some(p) = new_parent {
                assert forall|k: nat| up_to_date(work, board_id, #[trigger] ancestor(work, board_id, p, k)) by {
                    lemma_same_shape_ancestor(post, work, board_id, p, k);
                }
                assert(chain_up_to_date(work, board_id, p));
            }
            assert(first_task_in_board(post.tasks@, board_id, task_id, i as int));
            let fp = choose|f: int| first_task_in_board(post.tasks@, board_id, task_id, f);
            lemma_first_task_unique(post.tasks@, board_id, task_id, fp, i as int);
            assert(post.tasks@[i as int].updated_at == now && post.tasks@[i as int].updated_by == if post.tasks@[i as int].status@
                == updated.tasks@[i as int].status@ {
                Some(actor_id)
            } else {
                None
            });
            if well_formed(*db) {
                if let Some(p) = new_parent {
                    assert(updated.tasks@ == db.tasks@.update(i as int, new_row));
                    lemma_chain_ends_before_avoids(*db, board_id, p, task_id);
                    lemma_sync_frame_status_frame(pre, post, board_id, task_id);
                    lemma_off_chain(*db, updated, post, i as int, new_row, board_id, p);
                }
                assert(work.tasks@[i as int] == post.tasks@[i as int]);
                if large_tasks_consistent(*db) {
                    assert(pre == d1);
                    assert(d1.dependencies@ == db.dependencies@);
                    assert forall|b2: i64, v: i64|
                        !(b2 == board_id && Some(v) == old_task.parent_id && old_task.parent_id != new_parent)
                            implies #[trigger] large_consistent(work, b2, v) by {
                        lemma_edit_large_keeps_consistent(*db, d1, post, work, i as int, new_row, board_id,
                            old_task.parent_id, b2, v);
                    }
                }
            }
            assert(forall|k: int|
                0 <= k < db.tasks@.len() && db.tasks@[k].id != task_id && db.tasks@[k].size@ != "large"@
                    ==> #[trigger] work.tasks@[k] == db.tasks@[k]);
            lemma_same_shape_trans(pre.tasks@, post.tasks@, work.tasks@);
            lemma_notes_appended(pre.notes@, post.notes@, work.notes@);
            assert forall|v: i64| v != task_id && !is_large(work, board_id, v) implies #[trigger] deps_listed(
                work.dependencies@,
                v,
            ) == deps_listed(pre.dependencies@, v) by {
                assert(deps_listed(post.dependencies@, v) == deps_listed(pre.dependencies@, v));
            }
        }
    }
    let ghost d2 = work;
    proof {
        assert forall|k: int|
            0 <= k < db.tasks@.len() && db.tasks@[k].id != task_id && db.tasks@[k].size@ != "large"@
                implies #[trigger] d2.tasks@[k] == db.tasks@[k] by {
            assert(k != i);
            assert(updated.tasks@[k] == db.tasks@[k]);
        }
        assert forall|v: i64| (v != task_id || depends is None) && !is_large(d2, board_id, v) implies #[trigger] deps_listed(
            d2.dependencies@,
            v,
        ) == deps_listed(db.dependencies@, v) by {
            if large {
                if v == task_id {
                    lemma_same_shape_task_at(updated, d2, board_id, task_id);
                }
            }
        }
    }
    proof {
        assert(d1.notes@.take(d1.notes@.len() as int) =~= d1.notes@);
        lemma_same_shape_trans(updated.tasks@, d1.tasks@, d2.tasks@);
        lemma_same_shape_task_at(updated, d1, board_id, task_id);
        lemma_same_shape_task_at(d1, d2, board_id, task_id);
    }
    proof {
        if old_task.parent_id != new_parent && !large && well_formed(*db) && (new_parent is None || (chain_up_to_date(
            *db,
            board_id,
            new_parent->0,
        ) && !reaches(new_dep_graph(*db, board_id, task_id, ids_view(depends)), task_id, new_parent->0))) && (
        old_task.parent_id is Some ==> chain_up_to_date(*db, board_id, old_task.parent_id->0)) && (depends is Some
            ==> dep_check(*db, board_id, task_id, sorted_ids(depends->0@)) is Fine) && max_id(note_ids(db.notes@))
            + 2 * db.tasks@.len() + 1 < i64::MAX {
            lemma_move_fits_point(*db, updated, d1, i as int, new_row, board_id, old_task.parent_id, ids_view(depends));
            assert(d2 == d1);
            if let Some(op) = old_task.parent_id {
                assert(chain_ends(d2, board_id, op));
                assert(notes_room(d2));
                assert(resync_fits(d2, board_id, op));
            }
        }
        if old_task.parent_id != new_parent && old_task.parent_id is Some && !large && well_formed(*db)
            && no_large_above(*db, board_id, old_task.parent_id->0) {
            let op = old_task.parent_id->0;
            assert(updated.tasks@ == db.tasks@.update(i as int, new_row));
            lemma_parent_chain_avoids(*db, board_id, task_id, op);
            lemma_update_keeps_chain(*db, updated, i as int, new_row, board_id, op);
            lemma_same_shape_no_large(updated, d2, board_id, op);
            assert(chain_ends(d2, board_id, op));
        }
    }
    if old_task.parent_id != new_parent {
        sync_large_ancestors(&mut work, board_id, old_task.parent_id, now)?;
    }
    let ghost d3 = work;
    proof {
        if large {
            if old_task.parent_id != new_parent && old_task.parent_id is Some {
                lemma_sync_chain_consistent(d2, d3, board_id, old_task.parent_id->0, task_id);
            }
        }
        assert forall|v: i64| (v != task_id || depends is None) && !is_large(d3, board_id, v) implies #[trigger] deps_listed(
            d3.dependencies@,
            v,
        ) == deps_listed(db.dependencies@, v) by {
            if d3 != d2 {
                lemma_same_shape_task_at(d2, d3, board_id, v);
            }
        }
        assert(d2.notes@.take(d2.notes@.len() as int) =~= d2.notes@);
        if d3 != d2 {
            lemma_same_shape_trans(updated.tasks@, d2.tasks@, d3.tasks@);
        }
        lemma_same_shape_task_at(d2, d3, board_id, task_id);
        lemma_same_shape_task_at(updated, d3, board_id, task_id);
    }
    proof {
        if old_task.parent_id == new_parent && new_parent is Some && well_formed(*db) && chain_up_to_date(
            *db,
            board_id,
            new_parent->0,
        ) && !large && (depends is Some ==> dep_check(*db, board_id, task_id, sorted_ids(depends->0@)) is Fine)
            && max_id(note_ids(db.notes@)) + db.tasks@.len() < i64::MAX {
            broadcast use vstd::seq_lib::group_filter_ensures;

            let p = new_parent->0;
            assert(d3 == d2);
            assert(d2 == d1);
            assert(updated.tasks@ == db.tasks@.update(i as int, new_row));
            lemma_parent_chain_avoids(*db, board_id, task_id, p);
            assert forall|m: int|
                0 <= m < db.dependencies@.len() && db.dependencies@[m].task_id != task_id
                    implies d1.dependencies@.contains(#[trigger] db.dependencies@[m]) by {
                let d = db.dependencies@[m];
                if depends is Some {
                    let kept = updated.dependencies@.filter(crate::task::deps_of_others(task_id));
                    assert(kept.contains(d));
                    let m2 = choose|m2: int| 0 <= m2 < kept.len() && kept[m2] == d;
                    assert(d1.dependencies@[m2] == d);
                } else {
                    assert(d1.dependencies@[m] == d);
                }
            }
            crate::wellformed::lemma_edit_keeps_fits(*db, d1, i as int, new_row, board_id, p);
            assert(chain_ends(d3, board_id, p));
            assert(notes_room(d3));
            assert(resync_fits(d3, board_id, p));
        }
        if old_task.parent_id != new_parent && !large && well_formed(*db) && new_parent is Some && chain_up_to_date(
            *db,
            board_id,
            new_parent->0,
        ) && !reaches(new_dep_graph(*db, board_id, task_id, ids_view(depends)), task_id, new_parent->0) && (
        old_task.parent_id is Some ==> chain_up_to_date(*db, board_id, old_task.parent_id->0)) && (depends is Some
            ==> dep_check(*db, board_id, task_id, sorted_ids(depends->0@)) is Fine) && max_id(note_ids(db.notes@))
            + 2 * db.tasks@.len() + 1 < i64::MAX {
            let np = new_parent->0;
            let mg = crate::wellformed::moved_graph(d1, board_id, task_id, new_parent);
            assert(acyclic(mg));
            assert(crate::task::edges_within(d3, board_id, mg));
            lemma_children_edges_same_shape(d1, d3, board_id, np, mg);
            assert(chain_ends(d3, board_id, np));
            assert(notes_room(d3));
            assert(resync_fits(d3, board_id, np));
        }
        if old_task.parent_id == new_parent && new_parent is Some && large && depends is None && well_formed(*db)
            && chain_up_to_date(*db, board_id, new_parent->0) && max_id(note_ids(db.notes@)) + 2 * (db.tasks@.len()
            + 1) + 1 < i64::MAX {
            let p = new_parent->0;
            assert(d3 == d2);
            assert(chain_up_to_date(d3, board_id, p));
            lemma_up_to_date_fits(d3, board_id, p);
            assert(chain_ends(d3, board_id, p));
            assert(notes_room(d3));
            assert(resync_fits(d3, board_id, p));
        }
        if new_parent is Some && !large && well_formed(*db) && no_large_above(*db, board_id, new_parent->0) {
            let np = new_parent->0;
            assert(updated.tasks@ == db.tasks@.update(i as int, new_row));
            lemma_chain_ends_before_avoids(*db, board_id, np, task_id);
            lemma_update_keeps_chain(*db, updated, i as int, new_row, board_id, np);
            lemma_same_shape_no_large(updated, d3, board_id, np);
            assert(chain_ends(d3, board_id, np));
        }
    }
    sync_large_ancestors(&mut work, board_id, new_parent, now)?;
    proof {
        let fin = work;
        lemma_same_shape_trans(updated.tasks@, d3.tasks@, fin.tasks@);
        assert forall|k: int| 0 <= k < db.tasks@.len() && db.tasks@[k].id != task_id implies {
            &&& (db.tasks@[k].size@ != "large"@ ==> #[trigger] fin.tasks@[k] == db.tasks@[k])
            &&& fin.tasks@[k].id == db.tasks@[k].id
            &&& fin.tasks@[k].board_id == db.tasks@[k].board_id
            &&& fin.tasks@[k].parent_id == db.tasks@[k].parent_id
            &&& fin.tasks@[k].size == db.tasks@[k].size
            &&& fin.tasks@[k].title == db.tasks@[k].title
            &&& fin.tasks@[k].description == db.tasks@[k].description
            &&& fin.tasks@[k].assignee_id == db.tasks@[k].assignee_id
        } by {
            assert(k != i);
            assert(updated.tasks@[k] == db.tasks@[k]);
            assert(fin.tasks@[k].id == updated.tasks@[k].id);
            if db.tasks@[k].size@ != "large"@ {
                assert(d2.tasks@[k] == db.tasks@[k]);
                assert(d3.tasks@[k] == d2.tasks@[k]);
            }
        }
        if large {
            if let Some(np) = new_parent {
                lemma_sync_chain_consistent(d3, fin, board_id, np, task_id);
            }
        }
        if let Some(op) = old_task.parent_id {
            if old_task.parent_id != new_parent {
                if d3 != d2 {
                    lemma_same_shape_trans(d2.tasks@, d3.tasks@, fin.tasks@);
                } else {
                    lemma_same_shape_trans(d2.tasks@, d2.tasks@, fin.tasks@);
                }
                assert forall|k: nat| up_to_date(fin, board_id, #[trigger] ancestor(fin, board_id, op, k)) by {
                    lemma_same_shape_ancestor(d2, fin, board_id, op, k);
                    lemma_same_shape_ancestor(d2, d3, board_id, op, k);
                    if let Some(u) = ancestor(d2, board_id, op, k) {
                        assert(up_to_date(d3, board_id, ancestor(d2, board_id, op, k)));
                        if let Some(np) = new_parent {
                            lemma_sync_chain_consistent(d3, fin, board_id, np, u);
                        }
                    }
                }
            }
        }
        assert forall|v: i64| (v != task_id || depends is None) && !is_large(fin, board_id, v) implies #[trigger] deps_listed(
            fin.dependencies@,
            v,
        ) == deps_listed(db.dependencies@, v) by {
            lemma_same_shape_task_at(d3, fin, board_id, v);
        }
        assert(users_after == with_user(db.users@, nonblank(assignee)));
        assert(fin.users@ == with_user(db.users@, nonblank(assignee)));
        assert(d1.notes@ == db.notes@);
        lemma_notes_appended(db.notes@, d2.notes@, d3.notes@);
        lemma_notes_appended(db.notes@, d3.notes@, fin.notes@);
        lemma_same_shape_task_at(updated, fin, board_id, task_id);
        lemma_same_shape_task_at(d3, fin, board_id, task_id);
        match new_parent {
            Some(p) => {
                assert forall|k: nat| up_to_date(fin, board_id, #[trigger] ancestor(fin, board_id, p, k)) by {
                    lemma_same_shape_ancestor(d3, fin, board_id, p, k);
                    assert(up_to_date(fin, board_id, ancestor(d3, board_id, p, k)));
                }
            },
            None => {},
        }
        if well_formed(*db) && large_tasks_consistent(*db) && large {
            assert forall|b2: i64, v: i64| #[trigger] large_consistent(fin, b2, v) by {
                if old_task.parent_id is Some && old_task.parent_id != new_parent {
                    let o = old_task.parent_id->0;
                    if b2 == board_id && v == o {
                        assert(ancestor(d2, board_id, o, 0) == Some(o));
                    }
                    lemma_chain_sync_keeps(d2, d3, board_id, o, b2, v);
                }
                if let Some(p) = new_parent {
                    lemma_chain_sync_keeps(d3, fin, board_id, p, b2, v);
                }
            }
        }
        if well_formed(*db) && large_tasks_consistent(*db) && !large {
            assert(d2 == d1);
            assert(updated.tasks@ == db.tasks@.update(i as int, new_row));
            assert(d1.tasks@ == updated.tasks@);
            if d3 == d2 {
                lemma_same_shape_refl(d1.tasks@);
            }
            assert forall|b2: i64, v: i64| #[trigger] large_consistent(fin, b2, v) by {
                lemma_edit_keeps_consistent(*db, d1, d3, fin, i as int, new_row, board_id, old_task.parent_id, b2, v);
            }
        }
        lemma_same_shape_parent(updated, fin, board_id, task_id);
        lemma_first_task_exists(fin.tasks@, board_id, task_id);
        let ff = choose|f: int| first_task_in_board(fin.tasks@, board_id, task_id, f);
        lemma_first_task_unique(fin.tasks@, board_id, task_id, ff, i as int);
        assert(task_at(fin, board_id, task_id) == fin.tasks@[i as int]);
        if !large {
            assert(d2.tasks@[i as int] == updated.tasks@[i as int]);
            assert(d3.tasks@[i as int] == d2.tasks@[i as int]);
            assert(fin.tasks@[i as int] == d3.tasks@[i as int]);
        } else if well_formed(*db) {
            assert(updated.tasks@ == db.tasks@.update(i as int, new_row));
            if old_task.parent_id != new_parent && old_task.parent_id is Some {
                let op = old_task.parent_id->0;
                lemma_parent_chain_avoids(*db, board_id, task_id, op);
                lemma_off_chain(*db, updated, d2, i as int, new_row, board_id, op);
            }
            assert(d3.tasks@[i as int] == d2.tasks@[i as int]);
            if let Some(p) = new_parent {
                lemma_chain_ends_before_avoids(*db, board_id, p, task_id);
                lemma_off_chain(*db, updated, d3, i as int, new_row, board_id, p);
            }
            assert(fin.tasks@[i as int] == d3.tasks@[i as int]);
        }
    }
    *db = work;
    let mut line = String::new();
    append_str(&mut line, "updated task ");
    append_i64(&mut line, task_id);
    let mut lines: Vec<String> = Vec::new();
    lines.push(line);
    assert(views(lines@) =~= seq![line@]);
    Ok(Outcome { lines })
}

/// What `task edit` sets, `task view` reads back: after dependencies are
/// given to a task that is not large, viewing the task on the same board
/// shows them sorted and without repeats.
pub proof fn law_edited_dependencies_are_viewed(
    old: Db,
    new: Db,
    actor: String,
    board: String,
    b: i64,
    task_id: i64,
    title: Option<Seq<char>>,
    description: Option<Seq<char>>,
    size: Option<Seq<char>>,
    parent: Option<i64>,
    assignee: Option<String>,
    ds: Seq<i64>,
    now: i64,
    r: Result<Outcome, CmdError>,
    viewer: String,
    seen: Result<Outcome, CmdError>,
)
    requires
        task_edit_outcome(old, new, actor, board, task_id, title, description, size, parent, assignee, Some(ds), now, r),
        r is Ok,
        selected_board(old, board@) == Some(b),
        edited(size, task_at(old, b, task_id).size@) != "large"@,
        board_access(new, viewer@, board@, "read"@) is Some,
        task_view_outcome(new, viewer, board, task_id, seen),
    ensures
        seen is Ok,
        seen matches Ok(out) ==> views(out.lines@)[7] == "dependsOn: "@ + "["@ + decimal_list(sorted_ids(ds)) + "]"@,
{
    assert(selected_board(new, board@) == Some(b));
    lemma_first_task_exists(new.tasks@, b, task_id);
    lemma_sorted_ids_idempotent(ds);
}

/// What `task status` sets, `task view` reads back: after a status change,
/// viewing the task on the same board shows the new status.
pub proof fn law_set_status_is_viewed(
    old: Db,
    new: Db,
    actor: String,
    board: String,
    task_id: i64,
    status: StatusArg,
    note: Option<String>,
    now: i64,
    r: Result<Outcome, CmdError>,
    viewer: String,
    seen: Result<Outcome, CmdError>,
)
    requires
        task_status_outcome(old, new, actor, board, task_id, status, note, now, r),
        r is Ok,
        board_access(new, viewer@, board@, "read"@) is Some,
        task_view_outcome(new, viewer, board, task_id, seen),
    ensures
        seen is Ok,
        seen matches Ok(out) ==> views(out.lines@)[4] == "status: "@ + status_name(status),
{
    let b = selected_board(old, board@)->0;
    assert(selected_board(new, board@) == Some(b));
    lemma_same_shape_task_at(old, new, b, task_id);
    lemma_first_task_exists(new.tasks@, b, task_id);
}

/// What `task add` stores, `task view` reads back: viewing the new task on
/// the same board shows its title, description, size and parent.
pub proof fn law_added_task_is_viewed(
    old: Db,
    new: Db,
    actor: String,
    board: String,
    title: String,
    description: String,
    size: Seq<char>,
    parent: Option<i64>,
    assignee: Option<String>,
    depends: Option<Seq<i64>>,
    now: i64,
    r: Result<Outcome, CmdError>,
    viewer: String,
    seen: Result<Outcome, CmdError>,
)
    requires
        task_add_outcome(old, new, actor, board, title, description, size, parent, assignee, depends, now, r),
        r is Ok,
        board_access(new, viewer@, board@, "read"@) is Some,
        task_view_outcome(new, viewer, board, (max_id(task_ids(old.tasks@)) + 1) as i64, seen),
    ensures
        seen is Ok,
        seen matches Ok(out) ==> {
            &&& views(out.lines@)[1] == "title: "@ + title@
            &&& views(out.lines@)[2] == "description: "@ + description@
            &&& views(out.lines@)[3] == "size: "@ + size
            &&& views(out.lines@)[5] == "parent: "@ + debug_opt(parent)
        },
{
    let b = selected_board(old, board@)->0;
    let n = (max_id(task_ids(old.tasks@)) + 1) as i64;
    let k = old.tasks@.len() as int;
    assert(selected_board(new, board@) == Some(b));
    lemma_max_id_bound(task_ids(old.tasks@));
    assert forall|j: int| 0 <= j < k implies !(new.tasks@[j].id == n && new.tasks@[j].board_id == b) by {
        assert(new.tasks@.take(k)[j] == new.tasks@[j]);
        assert(task_ids(old.tasks@)[j] == old.tasks@[j].id);
    }
    assert(first_task_in_board(new.tasks@, b, n, k));
    lemma_first_task_exists(new.tasks@, b, n);
    let f = choose|i: int| first_task_in_board(new.tasks@, b, n, i);
    lemma_first_task_unique(new.tasks@, b, n, f, k);
}

/// What `task delete` removes, `task view` no longer finds: viewing the
/// deleted task on the same board is a `not_found` error.
pub proof fn law_deleted_task_is_gone(
    old: Db,
    new: Db,
    actor: String,
    board: String,
    task_id: i64,
    now: i64,
    r: Result<Outcome, CmdError>,
    viewer: String,
    seen: Result<Outcome, CmdError>,
)
    requires
        task_delete_outcome(old, new, actor, board, task_id, now, r),
        r is Ok,
        board_access(new, viewer@, board@, "read"@) is Some,
        task_view_outcome(new, viewer, board, task_id, seen),
    ensures
        fails_with(seen, "not_found"@, "task not found in board"@),
{
    let b = selected_board(old, board@)->0;
    assert(selected_board(new, board@) == Some(b));
    let m = choose|m: Seq<bool>|
        #[trigger] deletion_marks(old.tasks@, b, task_id, m) && same_shape(
            unmarked_tasks(old.tasks@, m),
            new.tasks@,
        ) && new.notes@.take(old.notes@.filter(note_survives(old.tasks@, m)).len() as int)
            == old.notes@.filter(note_survives(old.tasks@, m));
    let kept = unmarked_tasks(old.tasks@, m);
    lemma_unmarked_tasks_facts(old.tasks@, m);
    assert(!task_in_board(kept, b, task_id)) by {
        if task_in_board(kept, b, task_id) {
            let k = choose|k: int| 0 <= k < kept.len() && kept[k].id == task_id && kept[k].board_id == b;
            let j = choose|j: int| 0 <= j < old.tasks@.len() && !m[j] && old.tasks@[j] == #[trigger] kept[k];
            assert(m[j]);
        }
    }
    assert(!task_in_board(new.tasks@, b, task_id)) by {
        if task_in_board(new.tasks@, b, task_id) {
            let k = choose|k: int| 0 <= k < new.tasks@.len() && new.tasks@[k].id == task_id && new.tasks@[k].board_id == b;
            assert(kept[k].id == new.tasks@[k].id);
        }
    }
}

/// The rows that `task list` shows, in table order.
pub open spec fn listed_rows(
    tasks: Seq<TaskRow>,
    board_id: i64,
    status: Option<Seq<char>>,
    size: Option<Seq<char>>,
    parent: Option<i64>,
    assignee_id: Option<i64>,
) -> Seq<TaskRow>
    decreases tasks.len(),
{
    if tasks.len() == 0 {
        Seq::<TaskRow>::empty()
    } else {
        let prev = listed_rows(tasks.drop_last(), board_id, status, size, parent, assignee_id);
        if passes(tasks.last(), board_id, status, size, parent, assignee_id) {
            prev.push(tasks.last())
        } else {
            prev
        }
    }
}

proof fn lemma_listed_rows(
    db: Db,
    tasks: Seq<TaskRow>,
    board_id: i64,
    status: Option<Seq<char>>,
    size: Option<Seq<char>>,
    parent: Option<i64>,
    assignee_id: Option<i64>,
)
    requires
        forall|i: int, j: int| 0 <= i < j < tasks.len() ==> #[trigger] tasks[i].id < #[trigger] tasks[j].id,
    ensures
        ({
            let rows = listed_rows(tasks, board_id, status, size, parent, assignee_id);
            &&& list_lines(db, tasks, board_id, status, size, parent, assignee_id) == rows.map_values(
                |t: TaskRow| list_line(db, t),
            )
            &&& forall|i: int, j: int| 0 <= i < j < rows.len() ==> #[trigger] rows[i].id < #[trigger] rows[j].id
            &&& forall|k: int| 0 <= k < rows.len() ==> exists|j: int| 0 <= j < tasks.len() && tasks[j] == #[trigger] rows[k]
        }),
    decreases tasks.len(),
{
    let rows = listed_rows(tasks, board_id, status, size, parent, assignee_id);
    if tasks.len() == 0 {
        assert(rows.map_values(|t: TaskRow| list_line(db, t)) =~= Seq::<Seq<char>>::empty());
    } else {
        let d = tasks.drop_last();
        assert forall|i: int, j: int| 0 <= i < j < d.len() implies #[trigger] d[i].id < #[trigger] d[j].id by {
            assert(tasks[i].id < tasks[j].id);
        }
        lemma_listed_rows(db, d, board_id, status, size, parent, assignee_id);
        let prev = listed_rows(d, board_id, status, size, parent, assignee_id);
        let last = tasks.last();
        assert(last == tasks[tasks.len() - 1]);
        assert forall|k: int| 0 <= k < prev.len() implies prev[k].id < last.id by {
            let j = choose|j: int| 0 <= j < d.len() && d[j] == #[trigger] prev[k];
            assert(tasks[j] == d[j]);
        }
        if passes(last, board_id, status, size, parent, assignee_id) {
            assert(rows == prev.push(last));
            assert(rows.map_values(|t: TaskRow| list_line(db, t)) =~= prev.map_values(|t: TaskRow| list_line(db, t)).push(
                list_line(db, last),
            ));
            assert forall|k: int| 0 <= k < rows.len() implies exists|j: int| 0 <= j < tasks.len() && tasks[j] == #[trigger] rows[k] by {
                if k < prev.len() {
                    let j = choose|j: int| 0 <= j < d.len() && d[j] == #[trigger] prev[k];
                    assert(tasks[j] == d[j]);
                    assert(rows[k] == prev[k]);
                } else {
                    assert(rows[k] == tasks[tasks.len() - 1]);
                }
            }
            assert forall|i: int, j: int| 0 <= i < j < rows.len() implies #[trigger] rows[i].id < #[trigger] rows[j].id by {
                assert(rows[i] == prev[i]);
                if j < prev.len() {
                    assert(rows[j] == prev[j]);
                }
            }
        } else {
            assert forall|k: int| 0 <= k < rows.len() implies exists|j: int| 0 <= j < tasks.len() && tasks[j] == #[trigger] rows[k] by {
                let j = choose|j: int| 0 <= j < d.len() && d[j] == #[trigger] prev[k];
                assert(tasks[j] == d[j]);
            }
        }
    }
}

/// `task list` shows its tasks in increasing order of id: its lines are
/// those of the rows it keeps, in table order, and on well-formed tables
/// the ids of those rows increase.
pub proof fn law_task_list_in_id_order(
    db: Db,
    board_id: i64,
    status: Option<Seq<char>>,
    size: Option<Seq<char>>,
    parent: Option<i64>,
    assignee_id: Option<i64>,
)
    requires
        well_formed(db),
    ensures
        list_lines(db, db.tasks@, board_id, status, size, parent, assignee_id) == listed_rows(
            db.tasks@,
            board_id,
            status,
            size,
            parent,
            assignee_id,
        ).map_values(|t: TaskRow| list_line(db, t)),
        forall|i: int, j: int|
            0 <= i < j < listed_rows(db.tasks@, board_id, status, size, parent, assignee_id).len()
                ==> #[trigger] listed_rows(db.tasks@, board_id, status, size, parent, assignee_id)[i].id
                < #[trigger] listed_rows(db.tasks@, board_id, status, size, parent, assignee_id)[j].id,
{
    reveal(crate::wellformed::ids_increasing);
    lemma_listed_rows(db, db.tasks@, board_id, status, size, parent, assignee_id);
}

} // verus!
