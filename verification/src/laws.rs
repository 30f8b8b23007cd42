//! What the board's operations are for, stated over their inputs and
//! results: the status a large task takes from its subtasks, the rows that
//! a filtered task list shows, the dependencies that a move to
//! `in_progress` or `completed` waits for, what a board's fingerprint shows
//! of its tasks, their dependencies and its members' permissions, and the
//! notes that a task view shows.
use vstd::prelude::*;

use crate::board::board_access;
use crate::cli::StatusArg;
use crate::error::CmdError;
use crate::store::{user_id_named, Db, Dependency, Member, Note, Outcome, Permission, TaskRow};
use crate::poll::{
    deps_print, member_perms_print, member_print, members_print, same_snapshot_spec, snapshot_of, task_print,
    tasks_print, BoardSnapshot,
};
use crate::text::int_decimal;
use crate::task::{child_statuses, derived_status, status_of};
use crate::task_cmd::{
    list_header, list_line, list_lines, note_line, note_lines, passes, task_list_outcome,
    task_status_outcome, task_view_outcome,
};
use crate::text::views;

verus! {

/// Row `k` of `tasks` is a subtask of task `t` on board `b`.
pub open spec fn is_subtask_row(tasks: Seq<TaskRow>, b: i64, t: i64, k: int) -> bool {
    0 <= k < tasks.len() && tasks[k].board_id == b && tasks[k].parent_id == Some(t)
}

/// The statuses of the subtasks of `t` are those of its subtask rows.
proof fn lemma_child_statuses_rows(tasks: Seq<TaskRow>, b: i64, t: i64)
    ensures
        forall|i: int|
            0 <= i < child_statuses(tasks, b, t).len() ==> exists|k: int|
                is_subtask_row(tasks, b, t, k) && #[trigger] child_statuses(tasks, b, t)[i] == tasks[k].status@,
        forall|k: int|
            is_subtask_row(tasks, b, t, k) ==> exists|i: int|
                0 <= i < child_statuses(tasks, b, t).len() && child_statuses(tasks, b, t)[i] == (
                #[trigger] tasks[k]).status@,
        child_statuses(tasks, b, t).len() == 0 <==> forall|k: int| !#[trigger] is_subtask_row(tasks, b, t, k),
    decreases tasks.len(),
{
    let st = child_statuses(tasks, b, t);
    if tasks.len() > 0 {
        let d = tasks.drop_last();
        lemma_child_statuses_rows(d, b, t);
        let ps = child_statuses(d, b, t);
        let n = tasks.len() - 1;
        assert(tasks.last() == tasks[n]);
        assert forall|k: int| 0 <= k < d.len() implies #[trigger] d[k] == tasks[k] by {}
        let hit = tasks[n].board_id == b && tasks[n].parent_id == Some(t);
        if hit {
            assert(st == ps.push(tasks[n].status@));
        } else {
            assert(st == ps);
        }
        assert forall|i: int| 0 <= i < st.len() implies exists|k: int|
            is_subtask_row(tasks, b, t, k) && #[trigger] st[i] == tasks[k].status@ by {
            if i < ps.len() {
                assert(st[i] == ps[i]);
                let k = choose|k: int| is_subtask_row(d, b, t, k) && ps[i] == d[k].status@;
                assert(is_subtask_row(tasks, b, t, k));
            } else {
                assert(is_subtask_row(tasks, b, t, n));
            }
        }
        assert forall|k: int| is_subtask_row(tasks, b, t, k) implies exists|i: int|
            0 <= i < st.len() && st[i] == (#[trigger] tasks[k]).status@ by {
            if k < n {
                assert(is_subtask_row(d, b, t, k));
                let i = choose|i: int| 0 <= i < ps.len() && ps[i] == (#[trigger] d[k]).status@;
                assert(st[i] == ps[i]);
            } else {
                assert(st[ps.len() as int] == tasks[n].status@);
            }
        }
        if st.len() == 0 {
            assert forall|k: int| !#[trigger] is_subtask_row(tasks, b, t, k) by {
                if is_subtask_row(tasks, b, t, k) {
                    if k < n {
                        assert(is_subtask_row(d, b, t, k));
                    }
                }
            }
        } else {
            if hit {
                assert(is_subtask_row(tasks, b, t, n));
            } else {
                let k = choose|k: int| is_subtask_row(d, b, t, k);
                assert(is_subtask_row(tasks, b, t, k));
            }
        }
    }
}

/// The status of a large task follows from its subtasks: `pending` without
/// subtasks; `completed` when every subtask is completed; otherwise
/// `blocked` as soon as one subtask is blocked, whatever the others are;
/// else `in_progress` when one is in progress or completed; else
/// `pending`.
pub proof fn law_large_status_from_subtasks(tasks: Seq<TaskRow>, b: i64, t: i64)
    ensures
        (forall|k: int| !#[trigger] is_subtask_row(tasks, b, t, k)) ==> derived_status(child_statuses(tasks, b, t))
            == "pending"@,
        (exists|k: int| #[trigger] is_subtask_row(tasks, b, t, k)) && (forall|k: int|
            #[trigger] is_subtask_row(tasks, b, t, k) ==> tasks[k].status@ == "completed"@) ==> derived_status(
            child_statuses(tasks, b, t),
        ) == "completed"@,
        (exists|k: int| #[trigger] is_subtask_row(tasks, b, t, k) && tasks[k].status@ == "blocked"@) && (exists|
            k: int,
        | #[trigger] is_subtask_row(tasks, b, t, k) && tasks[k].status@ != "completed"@) ==> derived_status(
            child_statuses(tasks, b, t),
        ) == "blocked"@,
        (forall|k: int| #[trigger] is_subtask_row(tasks, b, t, k) ==> tasks[k].status@ != "blocked"@) && (exists|
            k: int,
        | #[trigger] is_subtask_row(tasks, b, t, k) && (tasks[k].status@ == "in_progress"@ || tasks[k].status@
            == "completed"@)) && (exists|k: int|
            #[trigger] is_subtask_row(tasks, b, t, k) && tasks[k].status@ != "completed"@) ==> derived_status(
            child_statuses(tasks, b, t),
        ) == "in_progress"@,
        (exists|k: int| #[trigger] is_subtask_row(tasks, b, t, k)) && (forall|k: int|
            #[trigger] is_subtask_row(tasks, b, t, k) ==> tasks[k].status@ != "blocked"@ && tasks[k].status@
                != "in_progress"@ && tasks[k].status@ != "completed"@) ==> derived_status(
            child_statuses(tasks, b, t),
        ) == "pending"@,
{
    lemma_child_statuses_rows(tasks, b, t);
    let st = child_statuses(tasks, b, t);
    if exists|k: int| #[trigger] is_subtask_row(tasks, b, t, k) && tasks[k].status@ != "completed"@ {
        let k = choose|k: int| #[trigger] is_subtask_row(tasks, b, t, k) && tasks[k].status@ != "completed"@;
        let i = choose|i: int| 0 <= i < st.len() && st[i] == (#[trigger] tasks[k]).status@;
        assert(!(forall|j: int| 0 <= j < st.len() ==> st[j] == "completed"@));
    }
    if exists|k: int| #[trigger] is_subtask_row(tasks, b, t, k) && tasks[k].status@ == "blocked"@ {
        let k = choose|k: int| #[trigger] is_subtask_row(tasks, b, t, k) && tasks[k].status@ == "blocked"@;
        let i = choose|i: int| 0 <= i < st.len() && st[i] == (#[trigger] tasks[k]).status@;
        assert(st[i] == "blocked"@);
    }
    if exists|k: int|
        #[trigger] is_subtask_row(tasks, b, t, k) && (tasks[k].status@ == "in_progress"@ || tasks[k].status@
            == "completed"@) {
        let k = choose|k: int|
            #[trigger] is_subtask_row(tasks, b, t, k) && (tasks[k].status@ == "in_progress"@ || tasks[k].status@
                == "completed"@);
        let i = choose|i: int| 0 <= i < st.len() && st[i] == (#[trigger] tasks[k]).status@;
        assert(st[i] == "in_progress"@ || st[i] == "completed"@);
    }
    if exists|k: int| #[trigger] is_subtask_row(tasks, b, t, k) {
        let k = choose|k: int| #[trigger] is_subtask_row(tasks, b, t, k);
        assert(st.len() > 0);
    }
}


/// The lines of a filtered list are those of the rows that pass the
/// filters, in table order.
proof fn lemma_list_lines_filter(
    db: Db,
    tasks: Seq<TaskRow>,
    b: i64,
    status: Option<Seq<char>>,
    size: Option<Seq<char>>,
    parent: Option<i64>,
    aid: Option<i64>,
)
    ensures
        list_lines(db, tasks, b, status, size, parent, aid) == tasks.filter(
            |t: TaskRow| passes(t, b, status, size, parent, aid),
        ).map_values(|t: TaskRow| list_line(db, t)),
    decreases tasks.len(),
{
    let keep = |t: TaskRow| passes(t, b, status, size, parent, aid);
    let f = |t: TaskRow| list_line(db, t);
    if tasks.len() == 0 {
        reveal_with_fuel(Seq::<_>::filter, 1);
        assert(tasks.filter(keep) =~= Seq::<TaskRow>::empty());
        assert(tasks.filter(keep).map_values(f) =~= Seq::<Seq<char>>::empty());
    } else {
        let d = tasks.drop_last();
        lemma_list_lines_filter(db, d, b, status, size, parent, aid);
        assert(d.push(tasks.last()) =~= tasks);
        d.lemma_filter_push(tasks.last(), keep);
        if keep(tasks.last()) {
            assert(tasks.filter(keep).map_values(f) =~= d.filter(keep).map_values(f).push(f(tasks.last())));
        }
    }
}

/// Task `t` is shown by a task list of board `b` with the given filters:
/// it is on the board, and it has the status, the size, the parent and the
/// assignee asked for, where one is asked for.
pub open spec fn kept_by_filters(
    db: Db,
    t: TaskRow,
    b: i64,
    status: Option<Seq<char>>,
    size: Option<Seq<char>>,
    parent: Option<i64>,
    assignee: Option<String>,
) -> bool {
    &&& t.board_id == b
    &&& (status matches Some(s) ==> t.status@ == s)
    &&& (size matches Some(z) ==> t.size@ == z)
    &&& (parent matches Some(p) ==> t.parent_id == Some(p))
    &&& (assignee matches Some(name) ==> t.assignee_id == user_id_named(db.users@, name@))
}

/// `line` is the list line of a task that the filters keep.
pub open spec fn line_of_kept_task(
    db: Db,
    line: Seq<char>,
    b: i64,
    status: Option<Seq<char>>,
    size: Option<Seq<char>>,
    parent: Option<i64>,
    assignee: Option<String>,
) -> bool {
    exists|k: int|
        0 <= k < db.tasks@.len() && kept_by_filters(db, #[trigger] db.tasks@[k], b, status, size, parent, assignee)
            && line == list_line(db, db.tasks@[k])
}

/// `lines` are a header, then one line for each task that the filters keep
/// and no other.
pub open spec fn shows_filtered(
    db: Db,
    lines: Seq<Seq<char>>,
    b: i64,
    status: Option<Seq<char>>,
    size: Option<Seq<char>>,
    parent: Option<i64>,
    assignee: Option<String>,
) -> bool {
    &&& lines.len() >= 1
    &&& lines[0] == list_header()
    &&& forall|i: int|
        1 <= i < lines.len() ==> #[trigger] line_of_kept_task(db, lines[i], b, status, size, parent, assignee)
    &&& forall|k: int|
        0 <= k < db.tasks@.len() && kept_by_filters(db, #[trigger] db.tasks@[k], b, status, size, parent, assignee)
            ==> exists|i: int| 1 <= i < lines.len() && lines[i] == list_line(db, db.tasks@[k])
}

/// `task list` shows, under its header, one line for each task that the
/// filters keep and no other: with a parent filter `p` only subtasks of
/// `p` (so never `p` itself), with a status, size or assignee filter only
/// tasks with that status, size or assignee.
#[verifier::rlimit(100)]
#[verifier::spinoff_prover]
pub proof fn law_task_list_shows_filtered(
    db: Db,
    actor: String,
    board: String,
    status: Option<Seq<char>>,
    size: Option<Seq<char>>,
    parent: Option<i64>,
    assignee: Option<String>,
    r: Result<Outcome, CmdError>,
    b: i64,
)
    requires
        task_list_outcome(db, actor, board, status, size, parent, assignee, r),
        r is Ok,
        board_access(db, actor@, board@, "read"@) matches Some((a, bb)) && bb == b,
    ensures
        shows_filtered(db, views(r->Ok_0.lines@), b, status, size, parent, assignee),
        views(r->Ok_0.lines@).subrange(1, views(r->Ok_0.lines@).len() as int) == db.tasks@.filter(
            |t: TaskRow| kept_by_filters(db, t, b, status, size, parent, assignee),
        ).map_values(|t: TaskRow| list_line(db, t)),
{
    broadcast use vstd::seq_lib::group_filter_ensures;

    let aid = match assignee {
        Some(name) => user_id_named(db.users@, name@),
        None => None,
    };
    let keep = |t: TaskRow| passes(t, b, status, size, parent, aid);
    lemma_list_lines_filter(db, db.tasks@, b, status, size, parent, aid);
    let rows = db.tasks@.filter(keep);
    let ls = list_lines(db, db.tasks@, b, status, size, parent, aid);
    let out = r->Ok_0;
    let lines = views(out.lines@);
    if let Some(name) = assignee {
        assert(user_id_named(db.users@, name@) is Some);
    }
    assert(lines == seq![list_header()] + ls);
    assert(lines.len() >= 1);
    assert(lines[0] == list_header());
    assert forall|i: int| 1 <= i < lines.len() implies #[trigger] line_of_kept_task(
        db,
        lines[i],
        b,
        status,
        size,
        parent,
        assignee,
    ) by {
        assert(lines[i] == ls[i - 1]);
        let t = rows[i - 1];
        assert(keep(t));
        assert(rows.contains(t));
        db.tasks@.lemma_filter_contains_rev(keep, t);
        let k = choose|k: int| 0 <= k < db.tasks@.len() && db.tasks@[k] == t;
        assert(ls[i - 1] == list_line(db, t));
        assert(kept_by_filters(db, db.tasks@[k], b, status, size, parent, assignee));
    }
    assert forall|k: int|
        0 <= k < db.tasks@.len() && kept_by_filters(db, #[trigger] db.tasks@[k], b, status, size, parent, assignee)
            implies exists|i: int| 1 <= i < lines.len() && lines[i] == list_line(db, db.tasks@[k]) by {
        let t = db.tasks@[k];
        assert(keep(t));
        assert(rows.contains(t));
        let i = choose|i: int| 0 <= i < rows.len() && rows[i] == t;
        assert(ls[i] == list_line(db, t));
        assert(lines[i + 1] == ls[i]);
    }
    assert(shows_filtered(db, lines, b, status, size, parent, assignee));
    let kf = |t: TaskRow| kept_by_filters(db, t, b, status, size, parent, assignee);
    assert(keep =~= kf);
    assert(lines.subrange(1, lines.len() as int) =~= ls);
}

/// `task status` moves a task to `in_progress` or `completed` only when
/// every dependency of the task that is a task has status `completed`: a
/// dependency in any other status, `in_progress` included, makes it fail.
pub proof fn law_move_waits_for_completed_dependencies(
    old: Db,
    new: Db,
    actor: String,
    board: String,
    task_id: i64,
    status: StatusArg,
    note: Option<String>,
    now: i64,
    r: Result<Outcome, CmdError>,
)
    requires
        task_status_outcome(old, new, actor, board, task_id, status, note, now, r),
        r is Ok,
        status is InProgress || status is Completed,
    ensures
        forall|k: int|
            0 <= k < old.dependencies@.len() && (#[trigger] old.dependencies@[k]).task_id == task_id && status_of(
                old.tasks@,
                old.dependencies@[k].depends_on,
            ) is Some ==> status_of(old.tasks@, old.dependencies@[k].depends_on)->0 == "completed"@,
{
    assert(board_access(old, actor@, board@, "set_status"@) is Some);
    assert(crate::task::least_open_dep(old, task_id) is None);
    assert forall|k: int|
        0 <= k < old.dependencies@.len() && (#[trigger] old.dependencies@[k]).task_id == task_id && status_of(
            old.tasks@,
            old.dependencies@[k].depends_on,
        ) is Some implies status_of(old.tasks@, old.dependencies@[k].depends_on)->0 == "completed"@ by {
        let d = old.dependencies@[k].depends_on;
        if status_of(old.tasks@, d)->0 != "completed"@ {
            assert(crate::task::open_dep_in(old, task_id, old.dependencies@.len() as int, d));
        }
    }
}

/// The post notes shown of task `t` are the notes of `t`, in table order.
proof fn lemma_note_lines_filter(db: Db, notes: Seq<Note>, t: i64)
    ensures
        note_lines(db, notes, t) == notes.filter(|n: Note| n.task_id == t).map_values(|n: Note| note_line(db, n)),
    decreases notes.len(),
{
    let keep = |n: Note| n.task_id == t;
    let f = |n: Note| note_line(db, n);
    if notes.len() == 0 {
        reveal_with_fuel(Seq::<_>::filter, 1);
        assert(notes.filter(keep) =~= Seq::<Note>::empty());
        assert(notes.filter(keep).map_values(f) =~= Seq::<Seq<char>>::empty());
    } else {
        let d = notes.drop_last();
        lemma_note_lines_filter(db, d, t);
        assert(d.push(notes.last()) =~= notes);
        d.lemma_filter_push(notes.last(), keep);
        if keep(notes.last()) {
            assert(notes.filter(keep).map_values(f) =~= d.filter(keep).map_values(f).push(f(notes.last())));
        }
    }
}

/// `task view` shows, after `postNotes:`, exactly the notes of the viewed
/// task: each note line comes from a note of that task, each of its notes
/// is shown, and a task without notes of its own shows `  - (none)`.
#[verifier::rlimit(100)]
#[verifier::spinoff_prover]
pub proof fn law_view_shows_own_notes(
    db: Db,
    actor: String,
    board: String,
    task_id: i64,
    r: Result<Outcome, CmdError>,
)
    requires
        task_view_outcome(db, actor, board, task_id, r),
        r is Ok,
    ensures
        r matches Ok(out) && {
            let lines = views(out.lines@);
            &&& lines.len() >= 10
            &&& lines[8] == "postNotes:"@
            &&& (forall|j: int| 0 <= j < db.notes@.len() ==> (#[trigger] db.notes@[j]).task_id != task_id)
                ==> lines.len() == 10 && lines[9] == "  - (none)"@
            &&& (exists|j: int| 0 <= j < db.notes@.len() && (#[trigger] db.notes@[j]).task_id == task_id)
                ==> forall|i: int|
                9 <= i < lines.len() ==> exists|j: int|
                    0 <= j < db.notes@.len() && db.notes@[j].task_id == task_id && #[trigger] lines[i] == note_line(
                        db,
                        db.notes@[j],
                    )
            &&& forall|j: int|
                0 <= j < db.notes@.len() && (#[trigger] db.notes@[j]).task_id == task_id ==> exists|i: int|
                    9 <= i < lines.len() && lines[i] == note_line(db, db.notes@[j])
        },
{
    broadcast use vstd::seq_lib::group_filter_ensures;

    assert(board_access(db, actor@, board@, "read"@) is Some);
    let (a, b) = board_access(db, actor@, board@, "read"@)->0;
    assert(crate::store::task_in_board(db.tasks@, b, task_id));
    let t = crate::task::task_at(db, b, task_id);
    crate::task::lemma_first_task_exists(db.tasks@, b, task_id);
    assert(t.id == task_id);
    let keep = |n: Note| n.task_id == task_id;
    lemma_note_lines_filter(db, db.notes@, task_id);
    let own = db.notes@.filter(keep);
    let ls = note_lines(db, db.notes@, task_id);
    let out = r->Ok_0;
    let lines = views(out.lines@);
    assert(lines == crate::task_cmd::view_lines(db, t));
    if exists|j: int| 0 <= j < db.notes@.len() && (#[trigger] db.notes@[j]).task_id == task_id {
        let j = choose|j: int| 0 <= j < db.notes@.len() && (#[trigger] db.notes@[j]).task_id == task_id;
        assert(own.contains(db.notes@[j]));
        assert(ls.len() > 0);
        assert forall|i: int| 9 <= i < lines.len() implies exists|j: int|
            0 <= j < db.notes@.len() && db.notes@[j].task_id == task_id && #[trigger] lines[i] == note_line(
                db,
                db.notes@[j],
            ) by {
            assert(lines[i] == ls[i - 9]);
            let n = own[i - 9];
            assert(own.contains(n));
            db.notes@.lemma_filter_contains_rev(keep, n);
            assert(ls[i - 9] == note_line(db, n));
        }
        assert forall|j: int| 0 <= j < db.notes@.len() && (#[trigger] db.notes@[j]).task_id == task_id implies exists|
            i: int,
        | 9 <= i < lines.len() && lines[i] == note_line(db, db.notes@[j]) by {
            assert(own.contains(db.notes@[j]));
            let i = choose|i: int| 0 <= i < own.len() && own[i] == db.notes@[j];
            assert(lines[i + 9] == ls[i]);
        }
    } else {
        if own.len() > 0 {
            assert(own.contains(own[0]));
            db.notes@.lemma_filter_contains_rev(keep, own[0]);
        }
        assert(ls.len() == 0);
    }
}


/// `x` occurs in `s` as a run of consecutive characters.
pub open spec fn has_part(s: Seq<char>, x: Seq<char>) -> bool {
    exists|i: int| 0 <= i && i + x.len() <= s.len() && #[trigger] s.subrange(i, i + x.len()) == x
}

/// The fingerprint text of user `u` holding `action`.
pub open spec fn permission_part(u: i64, action: Seq<char>) -> Seq<char> {
    "m:"@ + int_decimal(u as int) + ":"@ + action + ";"@
}

/// A part of `s` is a part of `a + s + c`.
proof fn lemma_part_in_context(s: Seq<char>, x: Seq<char>, a: Seq<char>, c: Seq<char>)
    requires
        has_part(s, x),
    ensures
        has_part(a + s + c, x),
{
    let i = choose|i: int| 0 <= i && i + x.len() <= s.len() && #[trigger] s.subrange(i, i + x.len()) == x;
    let t = a + s + c;
    assert(t.subrange(a.len() + i, a.len() + i + x.len()) =~= s.subrange(i, i + x.len()));
}

/// A text is a part of itself.
proof fn lemma_part_self(x: Seq<char>)
    ensures
        has_part(x, x),
{
    let z: int = 0;
    assert(x.subrange(z, z + x.len()) =~= x);
}

/// The permission parts of member `m` show each permission row of `m`.
proof fn lemma_member_perms_part(perms: Seq<Permission>, m: Member, j: int)
    requires
        0 <= j < perms.len(),
        perms[j].board_id == m.board_id,
        perms[j].user_id == m.user_id,
    ensures
        has_part(member_perms_print(perms, m), permission_part(m.user_id, perms[j].action@)),
    decreases perms.len(),
{
    let x = permission_part(m.user_id, perms[j].action@);
    let d = perms.drop_last();
    let n = perms.len() - 1;
    assert(perms.last() == perms[n]);
    if j < n {
        assert(d[j] == perms[j]);
        lemma_member_perms_part(d, m, j);
        let extra = if perms[n].board_id == m.board_id && perms[n].user_id == m.user_id {
            "m:"@ + int_decimal(m.user_id as int) + ":"@ + perms[n].action@ + ";"@
        } else {
            Seq::<char>::empty()
        };
        lemma_part_in_context(member_perms_print(d, m), x, Seq::<char>::empty(), extra);
        assert(Seq::<char>::empty() + member_perms_print(d, m) + extra =~= member_perms_print(perms, m));
    } else {
        lemma_part_self(x);
        lemma_part_in_context(x, x, member_perms_print(d, m), Seq::<char>::empty());
        assert(member_perms_print(d, m) + x + Seq::<char>::empty() =~= member_perms_print(perms, m));
    }
}

/// The part of every member of board `b` is in the members' part.
proof fn lemma_members_print_part(members: Seq<Member>, perms: Seq<Permission>, b: i64, i: int, x: Seq<char>)
    requires
        0 <= i < members.len(),
        members[i].board_id == b,
        has_part(member_print(perms, members[i]), x),
    ensures
        has_part(members_print(members, perms, b), x),
    decreases members.len(),
{
    let d = members.drop_last();
    let n = members.len() - 1;
    assert(members.last() == members[n]);
    if i < n {
        assert(d[i] == members[i]);
        lemma_members_print_part(d, perms, b, i, x);
        let extra = if members[n].board_id == b {
            member_print(perms, members[n])
        } else {
            Seq::<char>::empty()
        };
        lemma_part_in_context(members_print(d, perms, b), x, Seq::<char>::empty(), extra);
        assert(Seq::<char>::empty() + members_print(d, perms, b) + extra =~= members_print(members, perms, b));
    } else {
        lemma_part_in_context(member_print(perms, members[n]), x, members_print(d, perms, b), Seq::<char>::empty());
        assert(members_print(d, perms, b) + member_print(perms, members[n]) + Seq::<char>::empty()
            =~= members_print(members, perms, b));
    }
}

/// A board's fingerprint shows every permission that a member of the board
/// holds there: for member `u` holding `action`, the text
/// `m:<u>:<action>;` occurs in it.
pub proof fn law_fingerprint_shows_permissions(db: Db, b: i64, snap: BoardSnapshot, i: int, j: int)
    requires
        snapshot_of(db, b, snap),
        0 <= i < db.members@.len(),
        db.members@[i].board_id == b,
        0 <= j < db.permissions@.len(),
        db.permissions@[j].board_id == b,
        db.permissions@[j].user_id == db.members@[i].user_id,
    ensures
        has_part(snap.fingerprint@, permission_part(db.members@[i].user_id, db.permissions@[j].action@)),
{
    let m = db.members@[i];
    let x = permission_part(m.user_id, db.permissions@[j].action@);
    lemma_member_perms_part(db.permissions@, m, j);
    let mp = member_perms_print(db.permissions@, m);
    let w = choose|k: int| 0 <= k && k + x.len() <= mp.len() && #[trigger] mp.subrange(k, k + x.len()) == x;
    assert(x.len() > 0) by {
        reveal_strlit("m:");
    }
    assert(member_print(db.permissions@, m) == mp);
    lemma_members_print_part(db.members@, db.permissions@, b, i, x);
    let owner = crate::store::board_owner(db.boards@, b)->0;
    let head = "owner:"@ + int_decimal(owner as int) + ";"@ + crate::poll::tasks_print(db.tasks@, b)
        + crate::poll::deps_print(db.dependencies@, db.tasks@, b);
    lemma_part_in_context(members_print(db.members@, db.permissions@, b), x, head, Seq::<char>::empty());
    assert(head + members_print(db.members@, db.permissions@, b) + Seq::<char>::empty() =~= snap.fingerprint@);
}

/// A permission change shows in the board's snapshot: when a member of the
/// board holds an action in the new tables whose fingerprint text did not
/// occur in the old snapshot, the two snapshots differ, so a poll reports
/// an update.
pub proof fn law_new_permission_changes_snapshot(
    old: Db,
    new: Db,
    b: i64,
    before: BoardSnapshot,
    after: BoardSnapshot,
    i: int,
    j: int,
)
    requires
        snapshot_of(old, b, before),
        snapshot_of(new, b, after),
        0 <= i < new.members@.len(),
        new.members@[i].board_id == b,
        0 <= j < new.permissions@.len(),
        new.permissions@[j].board_id == b,
        new.permissions@[j].user_id == new.members@[i].user_id,
        !has_part(before.fingerprint@, permission_part(new.members@[i].user_id, new.permissions@[j].action@)),
    ensures
        !same_snapshot_spec(before, after),
{
    law_fingerprint_shows_permissions(new, b, after, i, j);
}


/// `task view` shows the notes of the viewed task in table order: the lines
/// after `postNotes:` are those of its notes, one each, in the order of
/// the notes table.
pub proof fn law_view_notes_in_table_order(
    db: Db,
    actor: String,
    board: String,
    task_id: i64,
    r: Result<Outcome, CmdError>,
)
    requires
        task_view_outcome(db, actor, board, task_id, r),
        r is Ok,
        exists|j: int| 0 <= j < db.notes@.len() && (#[trigger] db.notes@[j]).task_id == task_id,
    ensures
        views(r->Ok_0.lines@).subrange(9, views(r->Ok_0.lines@).len() as int) == db.notes@.filter(
            |n: Note| n.task_id == task_id,
        ).map_values(|n: Note| note_line(db, n)),
{
    broadcast use vstd::seq_lib::group_filter_ensures;

    assert(board_access(db, actor@, board@, "read"@) is Some);
    let (a, b) = board_access(db, actor@, board@, "read"@)->0;
    let t = crate::task::task_at(db, b, task_id);
    crate::task::lemma_first_task_exists(db.tasks@, b, task_id);
    assert(t.id == task_id);
    lemma_note_lines_filter(db, db.notes@, task_id);
    let own = db.notes@.filter(|n: Note| n.task_id == task_id);
    let ls = note_lines(db, db.notes@, task_id);
    let j = choose|j: int| 0 <= j < db.notes@.len() && (#[trigger] db.notes@[j]).task_id == task_id;
    assert(own.contains(db.notes@[j]));
    assert(ls.len() > 0);
    let lines = views(r->Ok_0.lines@);
    assert(lines == crate::task_cmd::view_lines(db, t));
    assert(lines.subrange(9, lines.len() as int) =~= ls);
}


/// The fingerprint text that opens the part of task `t`: its id, the time
/// of its last update and its status.
pub open spec fn task_part(t: TaskRow) -> Seq<char> {
    "t:"@ + int_decimal(t.id as int) + ":"@ + int_decimal(t.updated_at as int) + ":"@ + t.status@ + ":"@
}

/// The fingerprint text of a dependency of task `a` on task `c`.
pub open spec fn dependency_part(a: i64, c: i64) -> Seq<char> {
    "d:"@ + int_decimal(a as int) + ":"@ + int_decimal(c as int) + ";"@
}

/// The part of every task of board `b` is in the tasks' part.
proof fn lemma_tasks_print_part(tasks: Seq<TaskRow>, b: i64, k: int)
    requires
        0 <= k < tasks.len(),
        tasks[k].board_id == b,
    ensures
        has_part(tasks_print(tasks, b), task_part(tasks[k])),
    decreases tasks.len(),
{
    let x = task_part(tasks[k]);
    let d = tasks.drop_last();
    let n = tasks.len() - 1;
    assert(tasks.last() == tasks[n]);
    if k < n {
        assert(d[k] == tasks[k]);
        lemma_tasks_print_part(d, b, k);
        let extra = if tasks[n].board_id == b {
            task_print(tasks[n])
        } else {
            Seq::<char>::empty()
        };
        lemma_part_in_context(tasks_print(d, b), x, Seq::<char>::empty(), extra);
        assert(Seq::<char>::empty() + tasks_print(d, b) + extra =~= tasks_print(tasks, b));
    } else {
        let rest = crate::poll::debug_opt(tasks[n].parent_id) + ":"@ + crate::poll::debug_opt(tasks[n].assignee_id)
            + ":"@ + tasks[n].title@ + ":"@ + tasks[n].description@ + ":"@ + tasks[n].size@ + ";"@;
        lemma_part_self(x);
        lemma_part_in_context(x, x, tasks_print(d, b), rest);
        assert(tasks_print(d, b) + x + rest =~= tasks_print(tasks, b));
    }
}

/// The part of every dependency row of a task of board `b` is in the
/// dependencies' part.
proof fn lemma_deps_print_part(deps: Seq<Dependency>, tasks: Seq<TaskRow>, b: i64, k: int)
    requires
        0 <= k < deps.len(),
        crate::store::task_in_board(tasks, b, deps[k].task_id),
    ensures
        has_part(deps_print(deps, tasks, b), dependency_part(deps[k].task_id, deps[k].depends_on)),
    decreases deps.len(),
{
    let x = dependency_part(deps[k].task_id, deps[k].depends_on);
    let d = deps.drop_last();
    let n = deps.len() - 1;
    assert(deps.last() == deps[n]);
    if k < n {
        assert(d[k] == deps[k]);
        lemma_deps_print_part(d, tasks, b, k);
        let extra = if crate::store::task_in_board(tasks, b, deps[n].task_id) {
            dependency_part(deps[n].task_id, deps[n].depends_on)
        } else {
            Seq::<char>::empty()
        };
        lemma_part_in_context(deps_print(d, tasks, b), x, Seq::<char>::empty(), extra);
        assert(Seq::<char>::empty() + deps_print(d, tasks, b) + extra =~= deps_print(deps, tasks, b));
    } else {
        lemma_part_self(x);
        lemma_part_in_context(x, x, deps_print(d, tasks, b), Seq::<char>::empty());
        assert(deps_print(d, tasks, b) + x + Seq::<char>::empty() =~= deps_print(deps, tasks, b));
    }
}

/// A board's fingerprint shows each of its tasks with the time of its last
/// update and its status, and each dependency of its tasks: a change of a
/// task's status or a new dependency shows in the snapshot.
pub proof fn law_fingerprint_shows_tasks(db: Db, b: i64, snap: BoardSnapshot)
    requires
        snapshot_of(db, b, snap),
    ensures
        forall|k: int|
            0 <= k < db.tasks@.len() && (#[trigger] db.tasks@[k]).board_id == b ==> has_part(
                snap.fingerprint@,
                task_part(db.tasks@[k]),
            ),
        forall|k: int|
            0 <= k < db.dependencies@.len() && crate::store::task_in_board(
                db.tasks@,
                b,
                (#[trigger] db.dependencies@[k]).task_id,
            ) ==> has_part(snap.fingerprint@, dependency_part(db.dependencies@[k].task_id, db.dependencies@[k].depends_on)),
{
    let owner = crate::store::board_owner(db.boards@, b)->0;
    let pre = "owner:"@ + int_decimal(owner as int) + ";"@;
    let tp = tasks_print(db.tasks@, b);
    let dp = deps_print(db.dependencies@, db.tasks@, b);
    let mp = members_print(db.members@, db.permissions@, b);
    assert(snap.fingerprint@ =~= pre + tp + dp + mp);
    assert forall|k: int|
        0 <= k < db.tasks@.len() && (#[trigger] db.tasks@[k]).board_id == b implies has_part(
            snap.fingerprint@,
            task_part(db.tasks@[k]),
        ) by {
        lemma_tasks_print_part(db.tasks@, b, k);
        lemma_part_in_context(tp, task_part(db.tasks@[k]), pre, dp + mp);
        assert(pre + tp + (dp + mp) =~= snap.fingerprint@);
    }
    assert forall|k: int|
        0 <= k < db.dependencies@.len() && crate::store::task_in_board(
            db.tasks@,
            b,
            (#[trigger] db.dependencies@[k]).task_id,
        ) implies has_part(snap.fingerprint@, dependency_part(db.dependencies@[k].task_id, db.dependencies@[k].depends_on)) by {
        lemma_deps_print_part(db.dependencies@, db.tasks@, b, k);
        lemma_part_in_context(dp, dependency_part(db.dependencies@[k].task_id, db.dependencies@[k].depends_on), pre + tp, mp);
    }
}

} // verus!
