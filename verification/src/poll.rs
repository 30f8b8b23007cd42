//! Watching a board for changes: the snapshot that a poll compares, and
//! the decision each poll makes.
use vstd::prelude::*;

use crate::auth::{may_act, require};
use crate::board::{access_board, board_access, tasks_on_board};
use crate::error::{app_err_str, fails_with, CmdError};
use crate::store::{
    board_owner, find_board_by_id, no_board_with_id, Db, Dependency, Member, Permission, TaskRow,
};
use crate::text::{
    append_i64, append_str, append_usize, int_decimal, nat_decimal, u64_decimal,
    append_chars,
};

verus! {

/// What a poll compares: the numbers of tasks, members and permission rows
/// of a board, and a text that holds the board's owner, tasks, dependencies
/// and members.
pub struct BoardSnapshot {
    pub task_count: usize,
    pub member_count: usize,
    pub permission_count: usize,
    pub fingerprint: String,
}

/// Whether two snapshots are equal.
pub fn same_snapshot(a: &BoardSnapshot, b: &BoardSnapshot) -> (r: bool)
    ensures
        r == (a.task_count == b.task_count && a.member_count == b.member_count
            && a.permission_count == b.permission_count && a.fingerprint@ == b.fingerprint@),
{
    a.task_count == b.task_count && a.member_count == b.member_count && a.permission_count
        == b.permission_count && a.fingerprint == b.fingerprint
}

/// An optional id as `{:?}` writes it: `Some(<id>)` or `None`.
pub open spec fn debug_opt(v: Option<i64>) -> Seq<char> {
    match v {
        Some(x) => "Some("@ + int_decimal(x as int) + ")"@,
        None => "None"@,
    }
}

pub(crate) fn append_debug_opt(s: &mut String, v: Option<i64>)
    ensures
        final(s)@ == old(s)@ + debug_opt(v),
{
    match v {
        Some(x) => {
            append_str(s, "Some(");
            append_i64(s, x);
            append_str(s, ")");
        },
        None => {
            append_str(s, "None");
        },
    }
}

/// The part of the fingerprint for one task.
pub open spec fn task_print(t: TaskRow) -> Seq<char> {
    "t:"@ + int_decimal(t.id as int) + ":"@ + int_decimal(t.updated_at as int) + ":"@ + t.status@
        + ":"@ + debug_opt(t.parent_id) + ":"@ + debug_opt(t.assignee_id) + ":"@ + t.title@ + ":"@
        + t.description@ + ":"@ + t.size@ + ";"@
}

/// The fingerprint parts of the tasks on board `board_id`, in table order.
pub open spec fn tasks_print(tasks: Seq<TaskRow>, board_id: i64) -> Seq<char>
    decreases tasks.len(),
{
    if tasks.len() == 0 {
        Seq::<char>::empty()
    } else {
        tasks_print(tasks.drop_last(), board_id) + if tasks.last().board_id == board_id {
            task_print(tasks.last())
        } else {
            Seq::<char>::empty()
        }
    }
}

/// The fingerprint parts of the dependency rows of tasks on board
/// `board_id`, in table order.
pub open spec fn deps_print(deps: Seq<Dependency>, tasks: Seq<TaskRow>, board_id: i64) -> Seq<char>
    decreases deps.len(),
{
    if deps.len() == 0 {
        Seq::<char>::empty()
    } else {
        let d = deps.last();
        deps_print(deps.drop_last(), tasks, board_id) + if crate::store::task_in_board(
            tasks,
            board_id,
            d.task_id,
        ) {
            "d:"@ + int_decimal(d.task_id as int) + ":"@ + int_decimal(d.depends_on as int) + ";"@
        } else {
            Seq::<char>::empty()
        }
    }
}

/// The fingerprint parts of one member's permission rows, in table order.
pub open spec fn member_perms_print(perms: Seq<Permission>, m: Member) -> Seq<char>
    decreases perms.len(),
{
    if perms.len() == 0 {
        Seq::<char>::empty()
    } else {
        let p = perms.last();
        member_perms_print(perms.drop_last(), m) + if p.board_id == m.board_id && p.user_id
            == m.user_id {
            "m:"@ + int_decimal(m.user_id as int) + ":"@ + p.action@ + ";"@
        } else {
            Seq::<char>::empty()
        }
    }
}

/// The fingerprint part of one member: a part per permission row, or one
/// with `-` for a member without permissions.
pub open spec fn member_print(perms: Seq<Permission>, m: Member) -> Seq<char> {
    let p = member_perms_print(perms, m);
    if p.len() == 0 {
        "m:"@ + int_decimal(m.user_id as int) + ":-;"@
    } else {
        p
    }
}

/// The fingerprint parts of the members of board `board_id`, in table order.
pub open spec fn members_print(members: Seq<Member>, perms: Seq<Permission>, board_id: i64) -> Seq<
    char,
>
    decreases members.len(),
{
    if members.len() == 0 {
        Seq::<char>::empty()
    } else {
        members_print(members.drop_last(), perms, board_id) + if members.last().board_id
            == board_id {
            member_print(perms, members.last())
        } else {
            Seq::<char>::empty()
        }
    }
}

/// The number of member rows of board `board_id`.
pub open spec fn members_on_board(members: Seq<Member>, board_id: i64) -> nat
    decreases members.len(),
{
    if members.len() == 0 {
        0
    } else {
        members_on_board(members.drop_last(), board_id) + if members.last().board_id
            == board_id {
            1nat
        } else {
            0nat
        }
    }
}

/// The number of permission rows of board `board_id`.
pub open spec fn permissions_on_board(perms: Seq<Permission>, board_id: i64) -> nat
    decreases perms.len(),
{
    if perms.len() == 0 {
        0
    } else {
        permissions_on_board(perms.drop_last(), board_id) + if perms.last().board_id
            == board_id {
            1nat
        } else {
            0nat
        }
    }
}

/// The fingerprint of board `board_id` with owner `owner_id`.
pub open spec fn fingerprint(db: Db, board_id: i64, owner_id: i64) -> Seq<char> {
    "owner:"@ + int_decimal(owner_id as int) + ";"@ + tasks_print(db.tasks@, board_id)
        + deps_print(db.dependencies@, db.tasks@, board_id) + members_print(
        db.members@,
        db.permissions@,
        board_id,
    )
}

/// The snapshot of board `board_id`.
pub open spec fn snapshot_of(db: Db, board_id: i64, s: BoardSnapshot) -> bool {
    &&& board_owner(db.boards@, board_id) is Some
    &&& s.task_count == tasks_on_board(db.tasks@, board_id)
    &&& s.member_count == members_on_board(db.members@, board_id)
    &&& s.permission_count == permissions_on_board(db.permissions@, board_id)
    &&& s.fingerprint@ == fingerprint(db, board_id, board_owner(db.boards@, board_id)->0)
}

/// Appends the part of the fingerprint for task row `t`.
fn append_task_print(fp: &mut String, t: &TaskRow)
    ensures
        final(fp)@ == old(fp)@ + task_print(*t),
{
    let ghost before = fp@;
    append_str(fp, "t:");
    append_i64(fp, t.id);
    append_str(fp, ":");
    append_i64(fp, t.updated_at);
    append_str(fp, ":");
    append_str(fp, t.status.as_str());
    append_str(fp, ":");
    append_debug_opt(fp, t.parent_id);
    append_str(fp, ":");
    append_debug_opt(fp, t.assignee_id);
    append_str(fp, ":");
    append_str(fp, t.title.as_str());
    append_str(fp, ":");
    append_str(fp, t.description.as_str());
    append_str(fp, ":");
    append_str(fp, t.size.as_str());
    append_str(fp, ";");
    assert(fp@ =~= before + task_print(*t));
}

/// Takes the snapshot of board `board_id`; a board that does not exist is
/// `not_found`.
pub fn capture_board_snapshot(db: &Db, board_id: i64) -> (r: Result<BoardSnapshot, CmdError>)
    ensures
        r matches Ok(s) ==> snapshot_of(*db, board_id, s),
        r is Err <==> board_owner(db.boards@, board_id) is None,
        r is Err ==> fails_with(r, "not_found"@, "board not found"@),
{
    let owner_id = match find_board_by_id(&db.boards, board_id) {
        Some(i) => db.boards[i].owner_id,
        None => {
            return Err(app_err_str("not_found", "board not found"));
        },
    };
    let task_count = crate::board::count_tasks_on_board(db, board_id);
    let mut fp = String::new();
    append_str(&mut fp, "owner:");
    append_i64(&mut fp, owner_id);
    append_str(&mut fp, ";");
    let ghost head = fp@;
    let mut i: usize = 0;
    assert(db.tasks@.take(0) =~= Seq::<TaskRow>::empty());
    while i < db.tasks.len()
        invariant
            i <= db.tasks@.len(),
            fp@ == head + tasks_print(db.tasks@.take(i as int), board_id),
        decreases db.tasks@.len() - i,
    {
        assert(db.tasks@.take(i + 1).drop_last() =~= db.tasks@.take(i as int));
        let t = &db.tasks[i];
        if t.board_id == board_id {
            append_task_print(&mut fp, t);
        } else {
            assert(fp@ =~= head + tasks_print(db.tasks@.take(i + 1), board_id));
        }
        i = i + 1;
    }
    assert(db.tasks@.take(db.tasks@.len() as int) =~= db.tasks@);
    let ghost head2 = fp@;
    let mut k: usize = 0;
    assert(db.dependencies@.take(0) =~= Seq::<Dependency>::empty());
    while k < db.dependencies.len()
        invariant
            k <= db.dependencies@.len(),
            fp@ == head2 + deps_print(db.dependencies@.take(k as int), db.tasks@, board_id),
        decreases db.dependencies@.len() - k,
    {
        assert(db.dependencies@.take(k + 1).drop_last() =~= db.dependencies@.take(k as int));
        let d = &db.dependencies[k];
        if crate::store::find_task_in_board(&db.tasks, board_id, d.task_id).is_some() {
            let ghost before = fp@;
            append_str(&mut fp, "d:");
            append_i64(&mut fp, d.task_id);
            append_str(&mut fp, ":");
            append_i64(&mut fp, d.depends_on);
            append_str(&mut fp, ";");
            assert(fp@ =~= before + ("d:"@ + int_decimal(d.task_id as int) + ":"@ + int_decimal(
                d.depends_on as int,
            ) + ";"@));
        } else {
            assert(fp@ =~= head2 + deps_print(db.dependencies@.take(k + 1), db.tasks@, board_id));
        }
        k = k + 1;
    }
    assert(db.dependencies@.take(db.dependencies@.len() as int) =~= db.dependencies@);
    let ghost head3 = fp@;
    let mut member_count: usize = 0;
    let mut k: usize = 0;
    assert(db.members@.take(0) =~= Seq::<Member>::empty());
    while k < db.members.len()
        invariant
            k <= db.members@.len(),
            member_count <= k,
            member_count == members_on_board(db.members@.take(k as int), board_id),
            fp@ == head3 + members_print(db.members@.take(k as int), db.permissions@, board_id),
        decreases db.members@.len() - k,
    {
        assert(db.members@.take(k + 1).drop_last() =~= db.members@.take(k as int));
        let m = &db.members[k];
        if m.board_id == board_id {
            member_count = member_count + 1;
            let ghost before = fp@;
            let part = member_fingerprint(db, m);
            append_chars(&mut fp, &part);
            assert(fp@ =~= before + member_print(db.permissions@, *m));
        } else {
            assert(fp@ =~= head3 + members_print(db.members@.take(k + 1), db.permissions@, board_id));
        }
        k = k + 1;
    }
    assert(db.members@.take(db.members@.len() as int) =~= db.members@);
    let mut permission_count: usize = 0;
    let mut k: usize = 0;
    assert(db.permissions@.take(0) =~= Seq::<Permission>::empty());
    while k < db.permissions.len()
        invariant
            k <= db.permissions@.len(),
            permission_count <= k,
            permission_count == permissions_on_board(db.permissions@.take(k as int), board_id),
        decreases db.permissions@.len() - k,
    {
        assert(db.permissions@.take(k + 1).drop_last() =~= db.permissions@.take(k as int));
        if db.permissions[k].board_id == board_id {
            permission_count = permission_count + 1;
        }
        k = k + 1;
    }
    assert(db.permissions@.take(db.permissions@.len() as int) =~= db.permissions@);
    Ok(BoardSnapshot { task_count, member_count, permission_count, fingerprint: fp })
}

/// The fingerprint part of one member.
fn member_fingerprint(db: &Db, m: &Member) -> (v: Vec<char>)
    ensures
        v@ == member_print(db.permissions@, *m),
{
    let mut s = String::new();
    let mut any = false;
    let mut k: usize = 0;
    assert(db.permissions@.take(0) =~= Seq::<Permission>::empty());
    while k < db.permissions.len()
        invariant
            k <= db.permissions@.len(),
            s@ == member_perms_print(db.permissions@.take(k as int), *m),
            any == (s@.len() > 0),
        decreases db.permissions@.len() - k,
    {
        assert(db.permissions@.take(k + 1).drop_last() =~= db.permissions@.take(k as int));
        let p = &db.permissions[k];
        if p.board_id == m.board_id && p.user_id == m.user_id {
            let ghost before = s@;
            append_str(&mut s, "m:");
            append_i64(&mut s, m.user_id);
            append_str(&mut s, ":");
            append_str(&mut s, p.action.as_str());
            append_str(&mut s, ";");
            any = true;
            assert(s@ =~= before + ("m:"@ + int_decimal(m.user_id as int) + ":"@ + p.action@
                + ";"@));
        }
        k = k + 1;
    }
    assert(db.permissions@.take(db.permissions@.len() as int) =~= db.permissions@);
    if !any {
        let mut t = String::new();
        append_str(&mut t, "m:");
        append_i64(&mut t, m.user_id);
        append_str(&mut t, ":-;");
        crate::text::chars_of(t.as_str())
    } else {
        crate::text::chars_of(s.as_str())
    }
}

/// What a poll reports.
pub enum PollAction {
    /// The board changed: report the line and take the new snapshot.
    Update(String),
    /// Nothing changed for the idle period: report the line.
    Idle(String),
    /// Nothing to report.
    Quiet,
}

/// The line for a changed board.
pub open spec fn update_line(s: BoardSnapshot) -> Seq<char> {
    "update detected: tasks="@ + nat_decimal(s.task_count as nat) + " members="@ + nat_decimal(
        s.member_count as nat,
    ) + " permissions="@ + nat_decimal(s.permission_count as nat)
}

/// The line for an idle period.
pub open spec fn idle_line(idle_notice_secs: u64) -> Seq<char> {
    "no update in last "@ + nat_decimal(idle_notice_secs as nat) + "s"@
}

/// One poll: an update when the snapshot differs from the previous one;
/// else an idle notice once `idle_notice_secs` have passed since the last
/// line; else nothing.
pub fn poll_step(
    previous: &BoardSnapshot,
    current: &BoardSnapshot,
    elapsed_secs: u64,
    idle_notice_secs: u64,
) -> (a: PollAction)
    ensures
        !same_snapshot_spec(*previous, *current) ==> (a matches PollAction::Update(l) && l@
            == update_line(*current)),
        same_snapshot_spec(*previous, *current) && elapsed_secs >= idle_notice_secs ==> (a matches PollAction::Idle(
            l,
        ) && l@ == idle_line(idle_notice_secs)),
        same_snapshot_spec(*previous, *current) && elapsed_secs < idle_notice_secs ==> a is Quiet,
{
    if !same_snapshot(previous, current) {
        let mut l = String::new();
        append_str(&mut l, "update detected: tasks=");
        append_usize(&mut l, current.task_count);
        append_str(&mut l, " members=");
        append_usize(&mut l, current.member_count);
        append_str(&mut l, " permissions=");
        append_usize(&mut l, current.permission_count);
        PollAction::Update(l)
    } else if elapsed_secs >= idle_notice_secs {
        let mut l = String::new();
        append_str(&mut l, "no update in last ");
        let d = u64_decimal(idle_notice_secs);
        append_chars(&mut l, &d);
        append_str(&mut l, "s");
        PollAction::Idle(l)
    } else {
        PollAction::Quiet
    }
}

/// Two snapshots are equal.
pub open spec fn same_snapshot_spec(a: BoardSnapshot, b: BoardSnapshot) -> bool {
    a.task_count == b.task_count && a.member_count == b.member_count && a.permission_count
        == b.permission_count && a.fingerprint@ == b.fingerprint@
}

/// The start of a poll.
pub struct PollStart {
    pub actor_id: i64,
    pub board_id: i64,
    pub line: String,
}

/// The first line of a poll.
pub open spec fn polling_line(board: Seq<char>, board_id: i64, interval: u64, idle: u64) -> Seq<char> {
    "polling board "@ + board + " (id="@ + int_decimal(board_id as int) + ") every "@
        + nat_decimal(interval as nat) + "s (idle notice "@ + nat_decimal(idle as nat) + "s)"@
}

/// The checks before a poll: both periods must be at least a second
/// (`input` errors), and the actor must be allowed to read the board;
/// then the line that announces the poll.
pub fn poll_start(
    db: &Db,
    actor: &String,
    board: &String,
    interval_secs: u64,
    idle_notice_secs: u64,
) -> (r: Result<PollStart, CmdError>)
    ensures
        interval_secs == 0 ==> fails_with(r, "input"@, "--interval must be >= 1"@),
        interval_secs > 0 && idle_notice_secs == 0 ==> fails_with(
            r,
            "input"@,
            "--idle-notice-secs must be >= 1"@,
        ),
        interval_secs > 0 && idle_notice_secs > 0 ==> (r is Ok <==> board_access(
            *db,
            actor@,
            board@,
            "read"@,
        ) is Some),
        interval_secs > 0 && idle_notice_secs > 0 && board_access(*db, actor@, board@, "read"@) is None
            ==> crate::board::access_failure(*db, actor@, board@, "read"@, r),
        r matches Ok(p) ==> board_access(*db, actor@, board@, "read"@) == Some((p.actor_id, p.board_id))
            && p.line@ == polling_line(board@, p.board_id, interval_secs, idle_notice_secs),
{
    if interval_secs == 0 {
        return Err(app_err_str("input", "--interval must be >= 1"));
    }
    if idle_notice_secs == 0 {
        return Err(app_err_str("input", "--idle-notice-secs must be >= 1"));
    }
    let (actor_id, board_id) = access_board(db, actor, board, "read")?;
    let mut line = String::new();
    append_str(&mut line, "polling board ");
    append_str(&mut line, board.as_str());
    append_str(&mut line, " (id=");
    append_i64(&mut line, board_id);
    append_str(&mut line, ") every ");
    append_chars(&mut line, &u64_decimal(interval_secs));
    append_str(&mut line, "s (idle notice ");
    append_chars(&mut line, &u64_decimal(idle_notice_secs));
    append_str(&mut line, "s)");
    Ok(PollStart { actor_id, board_id, line })
}

/// One observation of a poll: the actor must still be allowed to read the
/// board, and the board's snapshot is taken.
pub fn poll_observe(db: &Db, actor_id: i64, board_id: i64) -> (r: Result<BoardSnapshot, CmdError>)
    ensures
        !may_act(*db, actor_id, board_id, "read"@) ==> r is Err,
        may_act(*db, actor_id, board_id, "read"@) ==> (r is Ok <==> board_owner(db.boards@, board_id) is Some),
        r matches Ok(s) ==> snapshot_of(*db, board_id, s),
{
    require(db, actor_id, board_id, "read")?;
    capture_board_snapshot(db, board_id)
}


/// Rows with the same boards, in the same places, count the same tasks on
/// each board.
proof fn lemma_tasks_on_board_same(a: Seq<TaskRow>, c: Seq<TaskRow>, board_id: i64)
    requires
        c.len() == a.len(),
        forall|k: int| 0 <= k < a.len() ==> (#[trigger] c[k]).board_id == a[k].board_id,
    ensures
        tasks_on_board(c, board_id) == tasks_on_board(a, board_id),
    decreases a.len(),
{
    if a.len() > 0 {
        let ad = a.drop_last();
        let cd = c.drop_last();
        assert forall|k: int| 0 <= k < ad.len() implies (#[trigger] cd[k]).board_id == ad[k].board_id by {
            assert(c[k].board_id == a[k].board_id);
        }
        lemma_tasks_on_board_same(ad, cd, board_id);
        assert(c.last().board_id == a.last().board_id) by {
            assert(c[c.len() - 1].board_id == a[a.len() - 1].board_id);
        }
    }
}

/// A task added between two polls shows: the board's snapshot after
/// `task add` counts one task more than the one before, so the two differ.
pub proof fn law_added_task_changes_snapshot(
    old: Db,
    new: Db,
    actor: String,
    board: String,
    title: String,
    description: String,
    size: Seq<char>,
    parent: Option<i64>,
    assignee: Option<String>,
    depends: Option<Seq<i64>>,
    now: i64,
    r: Result<crate::store::Outcome, CmdError>,
    b: i64,
    before: BoardSnapshot,
    after: BoardSnapshot,
)
    requires
        crate::task_cmd::task_add_outcome(old, new, actor, board, title, description, size, parent, assignee, depends, now, r),
        r is Ok,
        board_access(old, actor@, board@, "create"@) matches Some((a, bb)) && bb == b,
        snapshot_of(old, b, before),
        snapshot_of(new, b, after),
    ensures
        after.task_count == before.task_count + 1,
        !same_snapshot_spec(before, after),
{
    let n = old.tasks@.len() as int;
    let head = new.tasks@.take(n);
    assert forall|k: int| 0 <= k < n implies (#[trigger] head[k]).board_id == old.tasks@[k].board_id by {}
    lemma_tasks_on_board_same(old.tasks@, head, b);
    assert(new.tasks@.drop_last() =~= head);
    assert(new.tasks@.last() == new.tasks@[n]);
}


/// A snapshot is determined by the tables: two snapshots of the same board
/// in the same tables are equal.
pub proof fn law_snapshot_determined(db: Db, b: i64, s1: BoardSnapshot, s2: BoardSnapshot)
    requires
        snapshot_of(db, b, s1),
        snapshot_of(db, b, s2),
    ensures
        same_snapshot_spec(s1, s2),
{
}

} // verus!
