//! The `board` commands: creating, listing, viewing and deleting boards, and
//! granting and revoking members' permissions.
use vstd::prelude::*;

use crate::auth::{
    has_permission, is_board_owner, may_act, member_permissions, normalize_action_list,
    normalized_actions, replaced_permissions, require, resolve_board_id, selected_board,
    set_member_permissions,
};
use crate::cascade::{close_marks, remove_marked};
use crate::error::{app_err_str, fails_with, fails_with_text, CmdError};
use crate::store::{
    board_ids, board_owner, find_board_by_id, find_board_by_name, find_user_by_id,
    first_board_named, first_board_with_id, lemma_first_board_named_exists, max_id,
    no_board_named, user_id_named, user_name_of, Board, Db, Member,
    Outcome, Permission,
};
use crate::text::{
    append_i64, append_joined, append_padded, append_str, append_usize, chars_of, i64_decimal,
    int_decimal, joined, le_chars, nat_decimal, pad_right, views,
};
use crate::user::{get_or_create_user, get_user_id, user_not_found_msg, user_room, with_user};

use crate::wellformed::{lemma_well_formed_same_links, same_links, well_formed};

verus! {

/// The error text for a second board of the same name.
pub open spec fn duplicate_board_msg() -> Seq<char> {
    "UNIQUE constraint failed: boards.name"@
}

/// The error text for a row that a query needs and does not find.
pub open spec fn no_rows_msg() -> Seq<char> {
    "Query returned no rows"@
}

fn store_err(text: &str) -> (e: CmdError)
    ensures
        e.text() == text@,
{
    let mut m = String::new();
    append_str(&mut m, text);
    CmdError::Store(m)
}

/// What `board create` does: the result `r` and, for a command that changes the
/// tables, the tables `new` that it leaves of `old`.
pub open spec fn board_create_outcome(
    old: Db,
    new: Db,
    actor: String,
    name: String,
    now: i64,
    r: Result<Outcome, CmdError>,
) -> bool {
    &&& (well_formed(old) ==> well_formed(new))
    &&& (crate::wellformed::tables_keyed(old) ==> crate::wellformed::tables_keyed(new))
    &&& (r is Err ==> new == old)
    &&& (user_id_named(old.users@, actor@) is None ==> fails_with(
        r,
        "auth"@,
        user_not_found_msg(actor@),
    ))
    &&& (user_id_named(old.users@, actor@) is Some && !no_board_named(old.boards@, name@)
        ==> fails_with_text(r, duplicate_board_msg()))
    &&& (user_id_named(old.users@, actor@) is Some && no_board_named(old.boards@, name@)
        ==> (r is Ok <==> max_id(board_ids(old.boards@)) < i64::MAX))
    &&& (r matches Ok(out) ==> {
        let id = (max_id(board_ids(old.boards@)) + 1) as i64;
        &&& new.boards@ == old.boards@.push(
            Board {
                id,
                name: name,
                owner_id: user_id_named(old.users@, actor@)->0,
                created_at: now,
            },
        )
        &&& new.users@ == old.users@
        &&& new.members@ == old.members@
        &&& new.permissions@ == old.permissions@
        &&& new.tasks@ == old.tasks@
        &&& new.dependencies@ == old.dependencies@
        &&& new.notes@ == old.notes@
        &&& views(out.lines@) =~= seq![
            "created board "@ + name@ + " (id="@ + int_decimal(id as int) + ")"@,
        ]
    })
}

/// `board create`: `actor` must be a known user; creates a board owned by
/// `actor` and reports `"created board <name> (id=<id>)"`. A second board
/// of the same name is refused as a unique-name violation.
pub fn cmd_board_create(db: &mut Db, actor: &String, name: &String, now: i64) -> (r: Result<
    Outcome,
    CmdError,
>)
    ensures
        board_create_outcome(*old(db), *final(db), *actor, *name, now, r),
{
    let actor_id = get_user_id(db, actor)?;
    if find_board_by_name(&db.boards, name).is_some() {
        return Err(store_err("UNIQUE constraint failed: boards.name"));
    }
    let id = crate::store::next_board_id(&db.boards)?;
    db.boards.push(Board { id, name: name.clone(), owner_id: actor_id, created_at: now });
    let mut line = String::new();
    append_str(&mut line, "created board ");
    append_str(&mut line, name.as_str());
    append_str(&mut line, " (id=");
    append_i64(&mut line, id);
    append_str(&mut line, ")");
    let mut lines: Vec<String> = Vec::new();
    lines.push(line);
    proof {
        if well_formed(*old(db)) {
            crate::wellformed::lemma_well_formed_kept(*old(db), *db);
        }
    }
    Ok(Outcome { lines })
}

/// `actor` sees board `b`: owns it or may read it.
pub open spec fn sees_board(perms: Seq<Permission>, actor: i64, b: Board) -> bool {
    b.owner_id == actor || has_permission(perms, b.id, actor, "read"@)
}

/// A row of the board list: id, name, owner and creation time.
pub open spec fn board_row_line(b: Board, owner: Seq<char>) -> Seq<char> {
    pad_right(int_decimal(b.id as int), 4) + " "@ + pad_right(b.name@, 18) + " "@ + pad_right(
        owner,
        14,
    ) + " "@ + int_decimal(b.created_at as int)
}

/// The rows of the board list for `actor`: the boards that `actor` sees and
/// whose owner is a known user, in the order of the table.
pub open spec fn board_list_rows(db: Db, boards: Seq<Board>, actor: i64) -> Seq<Seq<char>>
    decreases boards.len(),
{
    if boards.len() == 0 {
        Seq::<Seq<char>>::empty()
    } else {
        let prev = board_list_rows(db, boards.drop_last(), actor);
        let b = boards.last();
        if sees_board(db.permissions@, actor, b) && user_name_of(db.users@, b.owner_id) is Some {
            prev.push(board_row_line(b, user_name_of(db.users@, b.owner_id)->0))
        } else {
            prev
        }
    }
}

/// The header of the board list.
pub open spec fn board_list_header() -> Seq<char> {
    pad_right("ID"@, 4) + " "@ + pad_right("NAME"@, 18) + " "@ + pad_right("OWNER"@, 14)
        + " CREATED"@
}

/// What `board list` does: the result `r` and, for a command that changes the
/// tables, the tables `new` that it leaves of `old`.
pub open spec fn board_list_outcome(
    db: Db,
    actor: String,
    r: Result<Outcome, CmdError>,
) -> bool {
    &&& (user_id_named(db.users@, actor@) is None ==> fails_with(
        r,
        "auth"@,
        user_not_found_msg(actor@),
    ))
    &&& (user_id_named(db.users@, actor@) is Some ==> r is Ok)
    &&& (r matches Ok(out) ==> views(out.lines@) =~= seq![
        board_list_header(),
    ] + board_list_rows(db, db.boards@, user_id_named(db.users@, actor@)->0))
}

/// `board list`: `actor` must be a known user; lists the boards that
/// `actor` owns or may read, under a header.
pub fn cmd_board_list(db: &Db, actor: &String) -> (r: Result<Outcome, CmdError>)
    ensures
        board_list_outcome(*db, *actor, r),
{
    let actor_id = get_user_id(db, actor)?;
    let mut lines: Vec<String> = Vec::new();
    let mut head = String::new();
    append_padded(&mut head, &chars_of("ID"), 4);
    append_str(&mut head, " ");
    append_padded(&mut head, &chars_of("NAME"), 18);
    append_str(&mut head, " ");
    append_padded(&mut head, &chars_of("OWNER"), 14);
    append_str(&mut head, " CREATED");
    lines.push(head);
    let read = String::from_str("read");
    let mut i: usize = 0;
    assert(db.boards@.take(0) =~= Seq::<Board>::empty());
    while i < db.boards.len()
        invariant
            i <= db.boards@.len(),
            read@ == "read"@,
            actor_id == user_id_named(db.users@, actor@)->0,
            views(lines@) == seq![board_list_header()] + board_list_rows(
                *db,
                db.boards@.take(i as int),
                actor_id,
            ),
        decreases db.boards@.len() - i,
    {
        let b = &db.boards[i];
        assert(db.boards@.take(i + 1).drop_last() =~= db.boards@.take(i as int));
        assert(db.boards@.take(i + 1).last() == db.boards@[i as int]);
        let sees = b.owner_id == actor_id || crate::auth::has_member_permission(
            db,
            actor_id,
            b.id,
            &read,
        );
        if sees {
            match find_user_by_id(&db.users, b.owner_id) {
                Some(u) => {
                    let mut line = String::new();
                    append_padded(&mut line, &i64_decimal(b.id), 4);
                    append_str(&mut line, " ");
                    append_padded(&mut line, &chars_of(b.name.as_str()), 18);
                    append_str(&mut line, " ");
                    append_padded(&mut line, &chars_of(db.users[u].name.as_str()), 14);
                    append_str(&mut line, " ");
                    append_i64(&mut line, b.created_at);
                    let ghost before = views(lines@);
                    lines.push(line);
                    assert(views(lines@) =~= before.push(line@));
                },
                None => {},
            }
        }
        i = i + 1;
    }
    assert(db.boards@.take(db.boards@.len() as int) =~= db.boards@);
    Ok(Outcome { lines })
}

/// The number of tasks on board `board_id`.
pub open spec fn tasks_on_board(tasks: Seq<crate::store::TaskRow>, board_id: i64) -> nat
    decreases tasks.len(),
{
    if tasks.len() == 0 {
        0
    } else {
        tasks_on_board(tasks.drop_last(), board_id) + if tasks.last().board_id == board_id {
            1nat
        } else {
            0nat
        }
    }
}

/// Counts the tasks on board `board_id`.
pub fn count_tasks_on_board(db: &Db, board_id: i64) -> (n: usize)
    ensures
        n == tasks_on_board(db.tasks@, board_id),
{
    let mut n: usize = 0;
    let mut i: usize = 0;
    assert(db.tasks@.take(0) =~= Seq::<crate::store::TaskRow>::empty());
    while i < db.tasks.len()
        invariant
            i <= db.tasks@.len(),
            n == tasks_on_board(db.tasks@.take(i as int), board_id),
            n <= i,
        decreases db.tasks@.len() - i,
    {
        assert(db.tasks@.take(i + 1).drop_last() =~= db.tasks@.take(i as int));
        if db.tasks[i].board_id == board_id {
            n = n + 1;
        }
        i = i + 1;
    }
    assert(db.tasks@.take(db.tasks@.len() as int) =~= db.tasks@);
    n
}

/// The board that an actor named `actor` may act on with `action`, given by
/// `selector`: the checks that every board command makes first.
pub open spec fn board_access(db: Db, actor: Seq<char>, selector: Seq<char>, action: Seq<char>) -> Option<(i64, i64)> {
    match user_id_named(db.users@, actor) {
        None => None,
        Some(a) => match selected_board(db, selector) {
            None => None,
            Some(b) => if may_act(db, a, b, action) {
                Some((a, b))
            } else {
                None
            },
        },
    }
}

/// The error of looking up `actor`, the board `selector` names, and the
/// right to `action` on it, taken in that order: an unknown user is an
/// `auth` error, a selector that is neither a name nor an id an `input`
/// error, an unknown id `not_found`, and a missing right `forbidden`.
pub open spec fn access_failure<T>(
    db: Db,
    actor: Seq<char>,
    selector: Seq<char>,
    action: Seq<char>,
    r: Result<T, CmdError>,
) -> bool {
    match user_id_named(db.users@, actor) {
        None => fails_with(r, "auth"@, user_not_found_msg(actor)),
        Some(a) => match selected_board(db, selector) {
            None => if crate::text::spec_parse_i64(selector) is None {
                fails_with(r, "input"@, "board selector must be board name or id"@)
            } else {
                fails_with(r, "not_found"@, "board not found"@)
            },
            Some(b) => if crate::auth::is_action(action) {
                fails_with(r, "forbidden"@, action + " denied"@)
            } else {
                fails_with(r, "system"@, "unknown action '"@ + action + "'"@)
            },
        },
    }
}

/// Looks up `actor`, resolves the board `selector` names, and checks that
/// `actor` may do `action` on it; the ids of the actor and the board.
pub fn access_board(db: &Db, actor: &String, selector: &String, action: &str) -> (r: Result<
    (i64, i64),
    CmdError,
>)
    ensures
        r matches Ok(p) ==> board_access(*db, actor@, selector@, action@) == Some(p),
        r matches Ok(p) ==> !crate::store::no_board_with_id(db.boards@, p.1),
        r is Err <==> board_access(*db, actor@, selector@, action@) is None,
        board_access(*db, actor@, selector@, action@) is None ==> access_failure(*db, actor@, selector@, action@, r),
        user_id_named(db.users@, actor@) is None ==> fails_with(r, "auth"@, user_not_found_msg(actor@)),
        user_id_named(db.users@, actor@) is Some && selected_board(*db, selector@) is None ==> (
        if crate::text::spec_parse_i64(selector@) is None {
            fails_with(r, "input"@, "board selector must be board name or id"@)
        } else {
            fails_with(r, "not_found"@, "board not found"@)
        }),
        user_id_named(db.users@, actor@) matches Some(a) && selected_board(*db, selector@) matches Some(b)
            && !may_act(*db, a, b, action@) ==> (if crate::auth::is_action(action@) {
            fails_with(r, "forbidden"@, action@ + " denied"@)
        } else {
            fails_with(r, "system"@, "unknown action '"@ + action@ + "'"@)
        }),
{
    let actor_id = get_user_id(db, actor)?;
    let board_id = resolve_board_id(db, selector)?;
    require(db, actor_id, board_id, action)?;
    Ok((actor_id, board_id))
}

/// The first line of `board view`.
pub open spec fn board_view_line(b: Board, owner: Seq<char>) -> Seq<char> {
    "board "@ + b.name@ + " (id="@ + int_decimal(b.id as int) + ") owner="@ + owner
        + " created="@ + int_decimal(b.created_at as int)
}

/// What `board view` does: the result `r` and, for a command that changes the
/// tables, the tables `new` that it leaves of `old`.
pub open spec fn board_view_outcome(
    db: Db,
    actor: String,
    board: String,
    r: Result<Outcome, CmdError>,
) -> bool {
    &&& (board_access(db, actor@, board@, "read"@) is None ==> access_failure(db, actor@, board@, "read"@, r))
    &&& (board_access(db, actor@, board@, "read"@) matches Some((a, b)) ==> {
        let i = choose|i: int| first_board_with_id(db.boards@, b, i);
        match user_name_of(db.users@, db.boards@[i].owner_id) {
            None => fails_with_text(r, no_rows_msg()),
            Some(owner) => r matches Ok(out) && views(out.lines@)
                == seq![
                board_view_line(db.boards@[i], owner),
                "tasks total="@ + nat_decimal(tasks_on_board(db.tasks@, b)),
            ],
        }
    })
}

/// `board view`: for an actor who may read the board, reports its name,
/// id, owner and creation time, and the number of its tasks.
pub fn cmd_board_view(db: &Db, actor: &String, board: &String) -> (r: Result<Outcome, CmdError>)
    ensures
        board_view_outcome(*db, *actor, *board, r),
{
    let (_actor_id, board_id) = access_board(db, actor, board, "read")?;
    proof {
        crate::store::lemma_first_board_with_id_exists(db.boards@, board_id);
    }
    let bi = match find_board_by_id(&db.boards, board_id) {
        Some(i) => i,
        None => {
            return Err(store_err("Query returned no rows"));
        },
    };
    proof {
        let k = choose|k: int| first_board_with_id(db.boards@, board_id, k);
        assert(k == bi);
    }
    let b = &db.boards[bi];
    let owner = match find_user_by_id(&db.users, b.owner_id) {
        Some(u) => &db.users[u].name,
        None => {
            return Err(store_err("Query returned no rows"));
        },
    };
    let total = count_tasks_on_board(db, board_id);
    let mut l1 = String::new();
    append_str(&mut l1, "board ");
    append_str(&mut l1, b.name.as_str());
    append_str(&mut l1, " (id=");
    append_i64(&mut l1, b.id);
    append_str(&mut l1, ") owner=");
    append_str(&mut l1, owner.as_str());
    append_str(&mut l1, " created=");
    append_i64(&mut l1, b.created_at);
    let mut l2 = String::new();
    append_str(&mut l2, "tasks total=");
    append_usize(&mut l2, total);
    let mut lines: Vec<String> = Vec::new();
    lines.push(l1);
    lines.push(l2);
    assert(views(lines@) =~= seq![l1@, l2@]);
    Ok(Outcome { lines })
}

/// The members of board `board_id`.
pub open spec fn is_member(members: Seq<Member>, board_id: i64, user_id: i64) -> bool {
    exists|k: int|
        0 <= k < members.len() && #[trigger] members[k].board_id == board_id && members[k].user_id
            == user_id
}

/// Whether `user_id` is a member of board `board_id`.
pub fn find_member(db: &Db, board_id: i64, user_id: i64) -> (r: bool)
    ensures
        r == is_member(db.members@, board_id, user_id),
{
    let mut i: usize = 0;
    while i < db.members.len()
        invariant
            i <= db.members@.len(),
            forall|k: int|
                0 <= k < i ==> !(db.members@[k].board_id == board_id && db.members@[k].user_id
                    == user_id),
        decreases db.members@.len() - i,
    {
        if db.members[i].board_id == board_id && db.members[i].user_id == user_id {
            return true;
        }
        i = i + 1;
    }
    false
}

/// What `board grant` does: the result `r` and, for a command that changes the
/// tables, the tables `new` that it leaves of `old`.
pub open spec fn board_grant_outcome(
    old: Db,
    new: Db,
    actor: String,
    board: String,
    target: String,
    permissions: Seq<Seq<char>>,
    r: Result<Outcome, CmdError>,
) -> bool {
    &&& (well_formed(old) ==> well_formed(new))
    &&& (crate::wellformed::tables_keyed(old) ==> crate::wellformed::tables_keyed(new))
    &&& (r is Err ==> new == old)
    &&& (board_access(old, actor@, board@, "assign"@) is None ==> access_failure(old, actor@, board@, "assign"@, r))
    &&& (board_access(old, actor@, board@, "assign"@) matches Some((a, b)) ==> {
        let t = user_id_named(old.users@, target@);
        if t is Some && board_owner(old.boards@, b) == t {
            r matches Ok(out) && views(out.lines@) =~= seq!["already owner"@] && new
                == old
        } else if normalized_actions(permissions).len() == 0 {
            fails_with(r, "input"@, "at least one permission is required"@)
        } else {
            &&& (user_room(old.users@, Some(target)) ==> r is Ok)
            &&& r matches Ok(out) ==> {
                let tid = user_id_named(new.users@, target@)->0;
                &&& user_id_named(new.users@, target@) is Some
                &&& new.users@ == with_user(old.users@, Some(target))
                &&& new.members@ == if is_member(old.members@, b, tid) {
                    old.members@
                } else {
                    old.members@.push(Member { board_id: b, user_id: tid })
                }
                &&& new.boards@ == old.boards@
                &&& new.tasks@ == old.tasks@
                &&& new.dependencies@ == old.dependencies@
                &&& new.notes@ == old.notes@
                &&& replaced_permissions(
                    old.permissions@,
                    new.permissions@,
                    b,
                    tid,
                    normalized_actions(permissions),
                )
                &&& views(out.lines@) =~= seq![
                    if is_member(old.members@, b, tid) {
                        "updated permissions"@
                    } else {
                        "granted"@
                    },
                    "permissions: "@ + joined(normalized_actions(permissions), ","@),
                ]
            }
        }
    })
}

/// `board grant`: for an actor who may assign on the board, makes `target`
/// (created when unknown) a member with the given permissions in canonical
/// form, and reports `"granted"` for a new member or `"updated
/// permissions"`, then `"permissions: <list>"`. Granting to the owner
/// changes nothing and reports `"already owner"`; an empty canonical list
/// of permissions is an `input` error.
pub fn cmd_board_grant(
    db: &mut Db,
    actor: &String,
    board: &String,
    target: &String,
    permissions: &Vec<String>,
) -> (r: Result<Outcome, CmdError>)
    ensures
        board_grant_outcome(*old(db), *final(db), *actor, *board, *target, views(permissions@), r),
{
    let (_actor_id, board_id) = access_board(db, actor, board, "assign")?;
    match crate::store::find_user_by_name(&db.users, target) {
        Some(ti) => {
            if is_board_owner(db, db.users[ti].id, board_id) {
                let mut lines: Vec<String> = Vec::new();
                let mut l = String::new();
                append_str(&mut l, "already owner");
                lines.push(l);
                assert(views(lines@) =~= seq![l@]);
                return Ok(Outcome { lines });
            }
        },
        None => {},
    }
    let mut probe: Vec<String> = Vec::new();
    let mut i: usize = 0;
    while i < permissions.len()
        invariant
            i <= permissions@.len(),
            probe@ == permissions@.take(i as int),
        decreases permissions@.len() - i,
    {
        probe.push(permissions[i].clone());
        assert(probe@ =~= permissions@.take(i + 1));
        i = i + 1;
    }
    assert(probe@ =~= permissions@);
    if normalize_action_list(probe).len() == 0 {
        return Err(app_err_str("input", "at least one permission is required"));
    }
    let mut work = copy_db(db);
    let target_id = get_or_create_user(&mut work, target)?;
    let existed = find_member(&work, board_id, target_id);
    if !existed {
        work.members.push(Member { board_id, user_id: target_id });
        assert(work.members@[work.members@.len() - 1].board_id == board_id);
        assert(is_member(work.members@, board_id, target_id));
    }
    let normalized = set_member_permissions(&mut work, board_id, target_id, permissions)?;
    let mut lines: Vec<String> = Vec::new();
    let mut l1 = String::new();
    if existed {
        append_str(&mut l1, "updated permissions");
    } else {
        append_str(&mut l1, "granted");
    }
    let mut l2 = String::new();
    append_str(&mut l2, "permissions: ");
    append_joined(&mut l2, &normalized, ",");
    lines.push(l1);
    lines.push(l2);
    assert(views(lines@) =~= seq![l1@, l2@]);
    *db = work;
    proof {
        if well_formed(*old(db)) {
            crate::wellformed::lemma_well_formed_kept(*old(db), *db);
        }
    }
    Ok(Outcome { lines })
}

/// A copy of the tables.
pub fn copy_db(db: &Db) -> (r: Db)
    ensures
        crate::store::same_tables(*db, r),
{
    let mut users: Vec<crate::store::User> = Vec::new();
    let mut i: usize = 0;
    while i < db.users.len()
        invariant
            i <= db.users@.len(),
            users@ == db.users@.take(i as int),
        decreases db.users@.len() - i,
    {
        let u = &db.users[i];
        users.push(crate::store::User { id: u.id, name: u.name.clone() });
        assert(users@ =~= db.users@.take(i + 1));
        i = i + 1;
    }
    assert(users@ =~= db.users@);
    let mut boards: Vec<Board> = Vec::new();
    let mut i: usize = 0;
    while i < db.boards.len()
        invariant
            i <= db.boards@.len(),
            boards@ == db.boards@.take(i as int),
        decreases db.boards@.len() - i,
    {
        let b = &db.boards[i];
        boards.push(Board { id: b.id, name: b.name.clone(), owner_id: b.owner_id, created_at: b.created_at });
        assert(boards@ =~= db.boards@.take(i + 1));
        i = i + 1;
    }
    assert(boards@ =~= db.boards@);
    let mut members: Vec<Member> = Vec::new();
    let mut i: usize = 0;
    while i < db.members.len()
        invariant
            i <= db.members@.len(),
            members@ == db.members@.take(i as int),
        decreases db.members@.len() - i,
    {
        let m = &db.members[i];
        members.push(Member { board_id: m.board_id, user_id: m.user_id });
        assert(members@ =~= db.members@.take(i + 1));
        i = i + 1;
    }
    assert(members@ =~= db.members@);
    let mut perms: Vec<Permission> = Vec::new();
    let mut i: usize = 0;
    while i < db.permissions.len()
        invariant
            i <= db.permissions@.len(),
            perms@ == db.permissions@.take(i as int),
        decreases db.permissions@.len() - i,
    {
        let p = &db.permissions[i];
        perms.push(Permission { board_id: p.board_id, user_id: p.user_id, action: p.action.clone() });
        assert(perms@ =~= db.permissions@.take(i + 1));
        i = i + 1;
    }
    assert(perms@ =~= db.permissions@);
    let mut tasks: Vec<crate::store::TaskRow> = Vec::new();
    let mut i: usize = 0;
    while i < db.tasks.len()
        invariant
            i <= db.tasks@.len(),
            tasks@ == db.tasks@.take(i as int),
        decreases db.tasks@.len() - i,
    {
        tasks.push(crate::cascade::copy_task(&db.tasks[i]));
        assert(tasks@ =~= db.tasks@.take(i + 1));
        i = i + 1;
    }
    assert(tasks@ =~= db.tasks@);
    let mut deps: Vec<crate::store::Dependency> = Vec::new();
    let mut i: usize = 0;
    while i < db.dependencies.len()
        invariant
            i <= db.dependencies@.len(),
            deps@ == db.dependencies@.take(i as int),
        decreases db.dependencies@.len() - i,
    {
        let d = &db.dependencies[i];
        deps.push(crate::store::Dependency { task_id: d.task_id, depends_on: d.depends_on });
        assert(deps@ =~= db.dependencies@.take(i + 1));
        i = i + 1;
    }
    assert(deps@ =~= db.dependencies@);
    let mut notes: Vec<crate::store::Note> = Vec::new();
    let mut i: usize = 0;
    while i < db.notes.len()
        invariant
            i <= db.notes@.len(),
            notes@ == db.notes@.take(i as int),
        decreases db.notes@.len() - i,
    {
        notes.push(crate::cascade::copy_note(&db.notes[i]));
        assert(notes@ =~= db.notes@.take(i + 1));
        i = i + 1;
    }
    assert(notes@ =~= db.notes@);
    Db { users, boards, members, permissions: perms, tasks, dependencies: deps, notes }
}

/// Keeps the member rows that are not `user_id`'s on board `board_id`.
pub open spec fn other_members(board_id: i64, user_id: i64) -> spec_fn(Member) -> bool {
    |m: Member| !(m.board_id == board_id && m.user_id == user_id)
}

/// What `board revoke` does: the result `r` and, for a command that changes the
/// tables, the tables `new` that it leaves of `old`.
pub open spec fn board_revoke_outcome(
    old: Db,
    new: Db,
    actor: String,
    board: String,
    target: String,
    r: Result<Outcome, CmdError>,
) -> bool {
    &&& (well_formed(old) ==> well_formed(new))
    &&& (crate::wellformed::tables_keyed(old) ==> crate::wellformed::tables_keyed(new))
    &&& (r is Err ==> new == old)
    &&& (board_access(old, actor@, board@, "assign"@) is None ==> access_failure(old, actor@, board@, "assign"@, r))
    &&& (board_access(old, actor@, board@, "assign"@) matches Some((a, b)) ==> {
        match user_id_named(old.users@, target@) {
            None => fails_with(r, "auth"@, user_not_found_msg(target@)),
            Some(t) => if board_owner(old.boards@, b) == Some(t) {
                fails_with(r, "forbidden"@, "cannot revoke board owner"@)
            } else {
                r matches Ok(out) && {
                    &&& new.members@ == old.members@.filter(other_members(b, t))
                    &&& new.permissions@ == old.permissions@.filter(
                        crate::auth::other_permissions(b, t),
                    )
                    &&& new.users@ == old.users@
                    &&& new.boards@ == old.boards@
                    &&& new.tasks@ == old.tasks@
                    &&& new.dependencies@ == old.dependencies@
                    &&& new.notes@ == old.notes@
                    &&& views(out.lines@) =~= seq![
                        "revoked "@ + nat_decimal(
                            (old.members@.len() - new.members@.len()) as nat,
                        ) + " row(s)"@,
                    ]
                }
            },
        }
    })
}

/// `board revoke`: for an actor who may assign on the board, removes
/// `target`'s membership and permissions there and reports `"revoked <n>
/// row(s)"`. An unknown target is an `auth` error; the owner cannot be
/// revoked (`forbidden`).
pub fn cmd_board_revoke(db: &mut Db, actor: &String, board: &String, target: &String) -> (r:
    Result<Outcome, CmdError>)
    ensures
        board_revoke_outcome(*old(db), *final(db), *actor, *board, *target, r),
{
    let (_actor_id, board_id) = access_board(db, actor, board, "assign")?;
    let target_id = get_user_id(db, target)?;
    if is_board_owner(db, target_id, board_id) {
        return Err(app_err_str("forbidden", "cannot revoke board owner"));
    }
    let ghost pred = other_members(board_id, target_id);
    let mut members: Vec<Member> = Vec::new();
    let mut i: usize = 0;
    assert(db.members@.take(0) =~= Seq::<Member>::empty());
    while i < db.members.len()
        invariant
            i <= db.members@.len(),
            pred == other_members(board_id, target_id),
            members@ == db.members@.take(i as int).filter(pred),
            members@.len() <= i,
        decreases db.members@.len() - i,
    {
        reveal_with_fuel(Seq::<_>::filter, 1);
        assert(db.members@.take(i + 1).drop_last() =~= db.members@.take(i as int));
        let m = &db.members[i];
        if !(m.board_id == board_id && m.user_id == target_id) {
            members.push(Member { board_id: m.board_id, user_id: m.user_id });
        }
        i = i + 1;
    }
    assert(db.members@.take(db.members@.len() as int) =~= db.members@);
    let count = db.members.len() - members.len();
    let perms = crate::auth::permissions_without(&db.permissions, board_id, target_id);
    db.members = members;
    db.permissions = perms;
    let mut line = String::new();
    append_str(&mut line, "revoked ");
    append_usize(&mut line, count);
    append_str(&mut line, " row(s)");
    let mut lines: Vec<String> = Vec::new();
    lines.push(line);
    assert(views(lines@) =~= seq![line@]);
    proof {
        if well_formed(*old(db)) {
            crate::wellformed::lemma_well_formed_kept(*old(db), *db);
        }
        if crate::wellformed::tables_keyed(*old(db)) {
            crate::wellformed::lemma_keyed_filter(*old(db), *db, other_boards(board_id), pred);
        }
    }
    Ok(Outcome { lines })
}

/// A revoked user loses access: once the member rows and permission rows
/// of a user who does not own the board are removed, the user may do
/// nothing on it.
pub proof fn law_revoked_user_is_denied(old: Db, new: Db, board_id: i64, user_id: i64, action: Seq<char>)
    requires
        new.boards@ == old.boards@,
        new.permissions@ == old.permissions@.filter(crate::auth::other_permissions(board_id, user_id)),
        board_owner(old.boards@, board_id) != Some(user_id),
    ensures
        !may_act(new, user_id, board_id, action),
{
    broadcast use vstd::seq_lib::group_filter_ensures;

    if has_permission(new.permissions@, board_id, user_id, action) {
        let k = choose|k: int|
            0 <= k < new.permissions@.len() && #[trigger] new.permissions@[k].board_id == board_id
                && new.permissions@[k].user_id == user_id && new.permissions@[k].action@ == action;
        let p = crate::auth::other_permissions(board_id, user_id);
        assert(p(new.permissions@[k]));
    }
}

/// Keeps the boards other than `board_id`.
pub open spec fn other_boards(board_id: i64) -> spec_fn(Board) -> bool {
    |b: Board| b.id != board_id
}

/// Keeps the member rows of boards other than `board_id`.
pub open spec fn members_elsewhere(board_id: i64) -> spec_fn(Member) -> bool {
    |m: Member| m.board_id != board_id
}

/// Keeps the permission rows of boards other than `board_id`.
pub open spec fn permissions_elsewhere(board_id: i64) -> spec_fn(Permission) -> bool {
    |p: Permission| p.board_id != board_id
}

/// What `board delete` does: the result `r` and, for a command that changes the
/// tables, the tables `new` that it leaves of `old`.
pub open spec fn board_delete_outcome(
    old: Db,
    new: Db,
    actor: String,
    board: String,
    r: Result<Outcome, CmdError>,
) -> bool {
    &&& (well_formed(old) ==> well_formed(new))
    &&& (crate::wellformed::tables_keyed(old) ==> crate::wellformed::tables_keyed(new))
    &&& (r is Err ==> new == old)
    &&& (board_access(old, actor@, board@, "delete_board"@) is None <==> r is Err)
    &&& (board_access(old, actor@, board@, "delete_board"@) is None ==> access_failure(
        old,
        actor@,
        board@,
        "delete_board"@,
        r,
    ))
    &&& (board_access(old, actor@, board@, "delete_board"@) matches Some((a, b)) ==> r matches Ok(out) && {
        &&& new.boards@ == old.boards@.filter(other_boards(b))
        &&& new.members@ == old.members@.filter(members_elsewhere(b))
        &&& new.permissions@ == old.permissions@.filter(permissions_elsewhere(b))
        &&& new.users@ == old.users@
        &&& forall|k: int| 0 <= k < new.tasks@.len() ==> #[trigger] new.tasks@[k].board_id != b
        &&& forall|k: int| 0 <= k < new.tasks@.len() ==> old.tasks@.contains(#[trigger] new.tasks@[k])
        &&& forall|k: int| 0 <= k < old.tasks@.len() && #[trigger] old.tasks@[k].board_id != b && old.tasks@[k].parent_id is None
            ==> new.tasks@.contains(old.tasks@[k])
        &&& views(out.lines@) =~= seq![
            "deleted "@ + nat_decimal((old.boards@.len() - new.boards@.len()) as nat) + " row(s)"@,
        ]
    })
}

/// `board delete`: for an actor who may delete the board, deletes it with
/// its members, permissions and tasks, and reports `"deleted <n> row(s)"`.
pub fn cmd_board_delete(db: &mut Db, actor: &String, board: &String) -> (r: Result<
    Outcome,
    CmdError,
>)
    ensures
        board_delete_outcome(*old(db), *final(db), *actor, *board, r),
{
    let (_actor_id, board_id) = access_board(db, actor, board, "delete_board")?;
    let ghost old_db = *db;
    let ghost bp = other_boards(board_id);
    let mut boards: Vec<Board> = Vec::new();
    let mut i: usize = 0;
    assert(db.boards@.take(0) =~= Seq::<Board>::empty());
    while i < db.boards.len()
        invariant
            i <= db.boards@.len(),
            bp == other_boards(board_id),
            boards@ == db.boards@.take(i as int).filter(bp),
            boards@.len() <= i,
        decreases db.boards@.len() - i,
    {
        reveal_with_fuel(Seq::<_>::filter, 1);
        assert(db.boards@.take(i + 1).drop_last() =~= db.boards@.take(i as int));
        let b = &db.boards[i];
        if b.id != board_id {
            boards.push(Board { id: b.id, name: b.name.clone(), owner_id: b.owner_id, created_at: b.created_at });
        }
        i = i + 1;
    }
    assert(db.boards@.take(db.boards@.len() as int) =~= db.boards@);
    let ghost mp = members_elsewhere(board_id);
    let mut members: Vec<Member> = Vec::new();
    let mut i: usize = 0;
    assert(db.members@.take(0) =~= Seq::<Member>::empty());
    while i < db.members.len()
        invariant
            i <= db.members@.len(),
            mp == members_elsewhere(board_id),
            members@ == db.members@.take(i as int).filter(mp),
        decreases db.members@.len() - i,
    {
        reveal_with_fuel(Seq::<_>::filter, 1);
        assert(db.members@.take(i + 1).drop_last() =~= db.members@.take(i as int));
        let m = &db.members[i];
        if m.board_id != board_id {
            members.push(Member { board_id: m.board_id, user_id: m.user_id });
        }
        i = i + 1;
    }
    assert(db.members@.take(db.members@.len() as int) =~= db.members@);
    let ghost pp = permissions_elsewhere(board_id);
    let mut perms: Vec<Permission> = Vec::new();
    let mut i: usize = 0;
    assert(db.permissions@.take(0) =~= Seq::<Permission>::empty());
    while i < db.permissions.len()
        invariant
            i <= db.permissions@.len(),
            pp == permissions_elsewhere(board_id),
            perms@ == db.permissions@.take(i as int).filter(pp),
        decreases db.permissions@.len() - i,
    {
        reveal_with_fuel(Seq::<_>::filter, 1);
        assert(db.permissions@.take(i + 1).drop_last() =~= db.permissions@.take(i as int));
        let p = &db.permissions[i];
        if p.board_id != board_id {
            perms.push(Permission { board_id: p.board_id, user_id: p.user_id, action: p.action.clone() });
        }
        i = i + 1;
    }
    assert(db.permissions@.take(db.permissions@.len() as int) =~= db.permissions@);
    let mut marks: Vec<bool> = Vec::new();
    let mut i: usize = 0;
    while i < db.tasks.len()
        invariant
            i <= db.tasks@.len(),
            marks@.len() == i,
            forall|k: int| 0 <= k < i ==> marks@[k] == (db.tasks@[k].board_id == board_id),
        decreases db.tasks@.len() - i,
    {
        marks.push(db.tasks[i].board_id == board_id);
        i = i + 1;
    }
    let closed = close_marks(&db.tasks, marks);
    let count = db.boards.len() - boards.len();
    remove_marked(db, &closed);
    let ghost removed = *db;
    proof {
        if well_formed(old_db) {
            crate::wellformed::lemma_well_formed_remove_marked(old_db, *db, closed@);
        }
        lemma_unmarked_tasks_facts(old_db.tasks@, closed@);
        assert forall|k: int| 0 <= k < db.tasks@.len() implies #[trigger] db.tasks@[k].board_id != board_id by {
            let j = choose|j: int| 0 <= j < old_db.tasks@.len() && !closed@[j] && old_db.tasks@[j] == db.tasks@[k];
            assert(!marks@[j]);
        }
        assert forall|k: int| 0 <= k < old_db.tasks@.len() && #[trigger] old_db.tasks@[k].board_id != board_id && old_db.tasks@[k].parent_id is None
            implies db.tasks@.contains(old_db.tasks@[k]) by {
            assert(!closed@[k]);
        }
        assert forall|k: int| 0 <= k < db.tasks@.len() implies old_db.tasks@.contains(#[trigger] db.tasks@[k]) by {
            let j = choose|j: int| 0 <= j < old_db.tasks@.len() && !closed@[j] && old_db.tasks@[j] == db.tasks@[k];
        }
    }
    db.boards = boards;
    db.members = members;
    db.permissions = perms;
    proof {
        if well_formed(old_db) {
            crate::wellformed::lemma_well_formed_kept(removed, *db);
        }
        if crate::wellformed::tables_keyed(old_db) {
            crate::wellformed::lemma_keyed_filter(old_db, *db, bp, mp);
        }
    }
    let mut line = String::new();
    append_str(&mut line, "deleted ");
    append_usize(&mut line, count);
    append_str(&mut line, " row(s)");
    let mut lines: Vec<String> = Vec::new();
    lines.push(line);
    assert(views(lines@) =~= seq![line@]);
    Ok(Outcome { lines })
}

/// The tasks kept by [`crate::cascade::unmarked_tasks`] are the unmarked ones.
pub proof fn lemma_unmarked_tasks_facts(tasks: Seq<crate::store::TaskRow>, marks: Seq<bool>)
    requires
        marks.len() == tasks.len(),
    ensures
        forall|k: int| 0 <= k < crate::cascade::unmarked_tasks(tasks, marks).len() ==> exists|j: int|
            0 <= j < tasks.len() && !marks[j] && tasks[j] == #[trigger] crate::cascade::unmarked_tasks(tasks, marks)[k],
        forall|j: int| 0 <= j < tasks.len() && !marks[j] ==> crate::cascade::unmarked_tasks(tasks, marks).contains(#[trigger] tasks[j]),
    decreases tasks.len(),
{
    let u = crate::cascade::unmarked_tasks(tasks, marks);
    if tasks.len() > 0 {
        let d = tasks.drop_last();
        let m2 = marks.drop_last();
        lemma_unmarked_tasks_facts(d, marks.take(d.len() as int));
        lemma_unmarked_tasks_prefix(tasks, marks);
        let ud = crate::cascade::unmarked_tasks(d, marks.take(d.len() as int));
        assert forall|k: int| 0 <= k < u.len() implies exists|j: int|
            0 <= j < tasks.len() && !marks[j] && tasks[j] == #[trigger] u[k] by {
            if k < ud.len() {
                assert(u[k] == ud[k]);
                let j = choose|j: int| 0 <= j < d.len() && !marks.take(d.len() as int)[j] && d[j] == ud[k];
                assert(tasks[j] == d[j]);
            } else {
                assert(tasks[tasks.len() - 1] == u[k]);
            }
        }
        assert forall|j: int| 0 <= j < tasks.len() && !marks[j] implies u.contains(#[trigger] tasks[j]) by {
            if j < d.len() {
                assert(d[j] == tasks[j]);
                assert(!marks.take(d.len() as int)[j]);
                assert(ud.contains(d[j]));
                let k = choose|k: int| 0 <= k < ud.len() && ud[k] == d[j];
                assert(u[k] == ud[k]);
            } else {
                assert(u[u.len() - 1] == tasks[j]);
            }
        }
    }
}

proof fn lemma_unmarked_tasks_prefix(tasks: Seq<crate::store::TaskRow>, marks: Seq<bool>)
    requires
        marks.len() == tasks.len(),
        tasks.len() > 0,
    ensures
        crate::cascade::unmarked_tasks(tasks, marks) == if marks[tasks.len() - 1] {
            crate::cascade::unmarked_tasks(tasks.drop_last(), marks.take(tasks.len() - 1))
        } else {
            crate::cascade::unmarked_tasks(tasks.drop_last(), marks.take(tasks.len() - 1)).push(tasks.last())
        },
{
    lemma_unmarked_tasks_marks_prefix(tasks.drop_last(), marks, marks.take(tasks.len() - 1));
}

proof fn lemma_unmarked_tasks_marks_prefix(tasks: Seq<crate::store::TaskRow>, m1: Seq<bool>, m2: Seq<bool>)
    requires
        m1.len() >= tasks.len(),
        m2.len() >= tasks.len(),
        forall|k: int| 0 <= k < tasks.len() ==> m1[k] == m2[k],
    ensures
        crate::cascade::unmarked_tasks(tasks, m1) == crate::cascade::unmarked_tasks(tasks, m2),
    decreases tasks.len(),
{
    if tasks.len() > 0 {
        lemma_unmarked_tasks_marks_prefix(tasks.drop_last(), m1, m2);
    }
}

/// The line for the owner in `board members`.
pub open spec fn owner_member_line(owner: Seq<char>) -> Seq<char> {
    "  "@ + owner + " [owner] perms=all"@
}

/// The line for a member in `board members`.
pub open spec fn member_line(db: Db, board_id: i64, u: crate::store::User) -> Seq<char> {
    "  "@ + u.name@ + " [member] perms="@ + joined(
        normalized_actions(crate::auth::granted_actions(db.permissions@, board_id, u.id)),
        ","@,
    )
}

/// `u` is listed among the members of board `board_id`: a known user, not
/// the owner, with a member row there.
pub open spec fn listed_member(db: Db, board_id: i64, owner_id: i64, u: crate::store::User) -> bool {
    &&& u.id != owner_id
    &&& is_member(db.members@, board_id, u.id)
    &&& user_name_of(db.users@, u.id) == Some(u.name@)
}

/// The member lines follow `entries`, which are the listed members in the
/// order of their names.
pub open spec fn member_lines_follow(
    db: Db,
    board_id: i64,
    owner_id: i64,
    lines: Seq<Seq<char>>,
    entries: Seq<crate::store::User>,
) -> bool {
    &&& lines.len() == entries.len() + 2
    &&& forall|k: int| 0 <= k < entries.len() ==> lines[k + 2] == member_line(db, board_id, #[trigger] entries[k])
    &&& forall|k: int, j: int| 0 <= k < j < entries.len() ==> crate::text::chars_le(entries[k].name@, entries[j].name@)
    &&& forall|k: int| 0 <= k < entries.len() ==> listed_member(db, board_id, owner_id, #[trigger] entries[k])
    &&& (crate::wellformed::tables_keyed(db) ==> forall|k: int, j: int|
        0 <= k < j < entries.len() ==> #[trigger] entries[k].id != #[trigger] entries[j].id)
    &&& forall|k: int| 0 <= k < db.members@.len() && #[trigger] db.members@[k].board_id == board_id
        && db.members@[k].user_id != owner_id && user_name_of(db.users@, db.members@[k].user_id) is Some
        ==> exists|j: int| 0 <= j < entries.len() && entries[j].id == db.members@[k].user_id
}

/// What `board members` does: the result `r` and, for a command that changes the
/// tables, the tables `new` that it leaves of `old`.
pub open spec fn board_members_outcome(
    db: Db,
    actor: String,
    board: String,
    r: Result<Outcome, CmdError>,
) -> bool {
    &&& (board_access(db, actor@, board@, "read"@) is None ==> access_failure(db, actor@, board@, "read"@, r))
    &&& (board_access(db, actor@, board@, "read"@) matches Some((a, b)) ==> {
        let o = board_owner(db.boards@, b)->0;
        match user_name_of(db.users@, o) {
            None => fails_with_text(r, no_rows_msg()),
            Some(owner) => r matches Ok(out)
                && views(out.lines@)[0] == "members:"@
                && views(out.lines@)[1] == owner_member_line(owner)
                && exists|entries: Seq<crate::store::User>| member_lines_follow(db, b, o, views(out.lines@), entries),
        }
    })
}

/// `board members`: for an actor who may read the board, lists its owner
/// and then its other members by name, each with its permissions.
pub fn cmd_board_members(db: &Db, actor: &String, board: &String) -> (r: Result<Outcome, CmdError>)
    ensures
        board_members_outcome(*db, *actor, *board, r),
{
    let (_actor_id, board_id) = access_board(db, actor, board, "read")?;
    proof {
        crate::store::lemma_first_board_with_id_exists(db.boards@, board_id);
    }
    let owner_id = match find_board_by_id(&db.boards, board_id) {
        Some(i) => db.boards[i].owner_id,
        None => {
            return Err(store_err("Query returned no rows"));
        },
    };
    let owner_name = match find_user_by_id(&db.users, owner_id) {
        Some(u) => &db.users[u].name,
        None => {
            return Err(store_err("Query returned no rows"));
        },
    };
    let mut entries: Vec<crate::store::User> = Vec::new();
    let mut i: usize = 0;
    while i < db.members.len()
        invariant
            i <= db.members@.len(),
            forall|k: int, j: int| 0 <= k < j < entries@.len() ==> crate::text::chars_le(entries@[k].name@, entries@[j].name@),
            forall|k: int| 0 <= k < entries@.len() ==> listed_member(*db, board_id, owner_id, #[trigger] entries@[k]),
            forall|k: int| 0 <= k < i && #[trigger] db.members@[k].board_id == board_id
                && db.members@[k].user_id != owner_id && user_name_of(db.users@, db.members@[k].user_id) is Some
                ==> exists|j: int| 0 <= j < entries@.len() && entries@[j].id == db.members@[k].user_id,
            forall|k: int| 0 <= k < entries@.len() ==> is_member(db.members@.take(i as int), board_id, #[trigger] entries@[k].id),
            crate::wellformed::tables_keyed(*db) ==> forall|k: int, j: int|
                0 <= k < j < entries@.len() ==> #[trigger] entries@[k].id != #[trigger] entries@[j].id,
        decreases db.members@.len() - i,
    {
        let m = &db.members[i];
        proof {
            assert forall|k: int| 0 <= k < entries@.len() implies is_member(db.members@.take(i + 1), board_id, #[trigger] entries@[k].id) by {
                let q = choose|q: int| 0 <= q < db.members@.take(i as int).len() && #[trigger] db.members@.take(i as int)[q].board_id == board_id
                    && db.members@.take(i as int)[q].user_id == entries@[k].id;
                assert(db.members@.take(i + 1)[q] == db.members@.take(i as int)[q]);
            }
        }
        if m.board_id == board_id && m.user_id != owner_id {
            match find_user_by_id(&db.users, m.user_id) {
                Some(u) => {
                    let name = &db.users[u].name;
                    let key = chars_of(name.as_str());
                    let mut p: usize = 0;
                    while p < entries.len() && le_chars(&chars_of(entries[p].name.as_str()), &key)
                        invariant
                            p <= entries@.len(),
                            key@ == name@,
                            forall|k: int| 0 <= k < p ==> crate::text::chars_le(entries@[k].name@, key@),
                        decreases entries@.len() - p,
                    {
                        p = p + 1;
                    }
                    let ghost before = entries@;
                    let e = crate::store::User { id: m.user_id, name: name.clone() };
                    entries.insert(p, e);
                    proof {
                        assert(is_member(db.members@, board_id, m.user_id));
                        if p < before.len() {
                            crate::text::lemma_chars_le_total(before[p as int].name@, key@);
                        }
                        assert forall|k: int, j: int| 0 <= k < j < entries@.len() implies crate::text::chars_le(entries@[k].name@, entries@[j].name@) by {
                            if j < p {
                            } else if k < p && j == p {
                            } else if k < p {
                                assert(entries@[j] == before[j - 1]);
                                crate::text::lemma_chars_le_trans(entries@[k].name@, key@, before[p as int].name@);
                                if j - 1 > p {
                                    crate::text::lemma_chars_le_trans(entries@[k].name@, before[p as int].name@, before[j - 1].name@);
                                }
                            } else if k == p {
                                assert(entries@[j] == before[j - 1]);
                                if j - 1 > p {
                                    crate::text::lemma_chars_le_trans(key@, before[p as int].name@, before[j - 1].name@);
                                }
                            } else {
                                assert(entries@[k] == before[k - 1]);
                                assert(entries@[j] == before[j - 1]);
                            }
                        }
                        assert(db.members@.take(i + 1)[i as int] == db.members@[i as int]);
                        assert forall|k: int| 0 <= k < entries@.len() implies is_member(db.members@.take(i + 1), board_id, #[trigger] entries@[k].id) by {
                            if k < p {
                                assert(entries@[k] == before[k]);
                            } else if k > p {
                                assert(entries@[k] == before[k - 1]);
                            }
                        }
                        if crate::wellformed::tables_keyed(*db) {
                            assert forall|x: int| 0 <= x < before.len() implies #[trigger] before[x].id != m.user_id by {
                                assert(is_member(db.members@.take(i as int), board_id, before[x].id));
                                let q = choose|q: int| 0 <= q < db.members@.take(i as int).len() && #[trigger] db.members@.take(i as int)[q].board_id == board_id
                                    && db.members@.take(i as int)[q].user_id == before[x].id;
                                assert(db.members@[q] == db.members@.take(i as int)[q]);
                                assert(db.members@[q] != db.members@[i as int]);
                            }
                            assert forall|k: int, j: int| 0 <= k < j < entries@.len() implies #[trigger] entries@[k].id != #[trigger] entries@[j].id by {
                                if j < p {
                                    assert(entries@[k] == before[k]);
                                    assert(entries@[j] == before[j]);
                                } else if j == p {
                                    assert(entries@[k] == before[k]);
                                } else if k < p {
                                    assert(entries@[k] == before[k]);
                                    assert(entries@[j] == before[j - 1]);
                                } else if k == p {
                                    assert(entries@[j] == before[j - 1]);
                                } else {
                                    assert(entries@[k] == before[k - 1]);
                                    assert(entries@[j] == before[j - 1]);
                                }
                            }
                        }
                        assert forall|k: int| 0 <= k < entries@.len() implies listed_member(*db, board_id, owner_id, #[trigger] entries@[k]) by {
                            if k < p {
                                assert(entries@[k] == before[k]);
                            } else if k > p {
                                assert(entries@[k] == before[k - 1]);
                            }
                        }
                        assert forall|k: int| 0 <= k < i + 1 && #[trigger] db.members@[k].board_id == board_id
                            && db.members@[k].user_id != owner_id && user_name_of(db.users@, db.members@[k].user_id) is Some
                            implies exists|j: int| 0 <= j < entries@.len() && entries@[j].id == db.members@[k].user_id by {
                            if k < i {
                                let j = choose|j: int| 0 <= j < before.len() && before[j].id == db.members@[k].user_id;
                                if j < p {
                                    assert(entries@[j] == before[j]);
                                } else {
                                    assert(entries@[j + 1] == before[j]);
                                }
                            } else {
                                assert(entries@[p as int].id == m.user_id);
                            }
                        }
                    }
                },
                None => {},
            }
        }
        i = i + 1;
    }
    let mut lines: Vec<String> = Vec::new();
    let mut l0 = String::new();
    append_str(&mut l0, "members:");
    let mut l1 = String::new();
    append_str(&mut l1, "  ");
    append_str(&mut l1, owner_name.as_str());
    append_str(&mut l1, " [owner] perms=all");
    lines.push(l0);
    lines.push(l1);
    let mut k: usize = 0;
    while k < entries.len()
        invariant
            k <= entries@.len(),
            lines@.len() == k + 2,
            lines@[0]@ == "members:"@,
            lines@[1]@ == owner_member_line(owner_name@),
            forall|j: int| 0 <= j < k ==> lines@[j + 2]@ == member_line(*db, board_id, #[trigger] entries@[j]),
        decreases entries@.len() - k,
    {
        let e = &entries[k];
        let perms = member_permissions(db, board_id, e.id);
        let mut line = String::new();
        append_str(&mut line, "  ");
        append_str(&mut line, e.name.as_str());
        append_str(&mut line, " [member] perms=");
        append_joined(&mut line, &perms, ",");
        lines.push(line);
        k = k + 1;
    }
    let out = Outcome { lines };
    proof {
        assert forall|k: int| 0 <= k < entries@.len() implies views(out.lines@)[k + 2] == member_line(*db, board_id, #[trigger] entries@[k]) by {
            assert(views(out.lines@)[k + 2] == out.lines@[k + 2]@);
        }
        assert(views(out.lines@)[0] == "members:"@);
        assert(views(out.lines@)[1] == owner_member_line(owner_name@));
        assert(board_owner(db.boards@, board_id) == Some(owner_id));
        assert(member_lines_follow(*db, board_id, owner_id, views(out.lines@), entries@));
        assert(exists|es: Seq<crate::store::User>| member_lines_follow(*db, board_id, owner_id, views(out.lines@), es));
    }
    Ok(out)
}

/// A deleted board is gone: after `board delete`, no board row, member row,
/// permission row or task is left on it, and the selector that named it no
/// longer selects it.
pub proof fn law_deleted_board_is_gone(old: Db, new: Db, actor: String, board: String, r: Result<Outcome, CmdError>)
    requires
        board_delete_outcome(old, new, actor, board, r),
        r is Ok,
    ensures
        ({
            let b = selected_board(old, board@)->0;
            &&& selected_board(new, board@) != Some(b)
            &&& forall|k: int| 0 <= k < new.boards@.len() ==> #[trigger] new.boards@[k].id != b
            &&& forall|k: int| 0 <= k < new.members@.len() ==> #[trigger] new.members@[k].board_id != b
            &&& forall|k: int| 0 <= k < new.permissions@.len() ==> #[trigger] new.permissions@[k].board_id != b
            &&& forall|k: int| 0 <= k < new.tasks@.len() ==> #[trigger] new.tasks@[k].board_id != b
        }),
{
    broadcast use vstd::seq_lib::group_filter_ensures;

    let b = selected_board(old, board@)->0;
    assert forall|k: int| 0 <= k < new.boards@.len() implies #[trigger] new.boards@[k].id != b by {
        assert(other_boards(b)(new.boards@[k]));
    }
    assert forall|k: int| 0 <= k < new.members@.len() implies #[trigger] new.members@[k].board_id != b by {
        assert(members_elsewhere(b)(new.members@[k]));
    }
    assert forall|k: int| 0 <= k < new.permissions@.len() implies #[trigger] new.permissions@[k].board_id
        != b by {
        assert(permissions_elsewhere(b)(new.permissions@[k]));
    }
    if !no_board_named(new.boards@, board@) {
        lemma_first_board_named_exists(new.boards@, board@);
        let i = choose|i: int| first_board_named(new.boards@, board@, i);
        assert(new.boards@[i].id != b);
    }
}


/// Removing one member row from rows where no row occurs twice removes one
/// row when the user is a member of the board, and none otherwise.
proof fn lemma_revoke_count(s: Seq<Member>, b: i64, t: i64)
    requires
        forall|i: int, j: int| 0 <= i < j < s.len() ==> #[trigger] s[i] != #[trigger] s[j],
    ensures
        s.len() - s.filter(other_members(b, t)).len() == if is_member(s, b, t) {
            1int
        } else {
            0int
        },
    decreases s.len(),
{
    reveal_with_fuel(Seq::<_>::filter, 1);
    if s.len() > 0 {
        let d = s.drop_last();
        assert forall|i: int, j: int| 0 <= i < j < d.len() implies #[trigger] d[i] != #[trigger] d[j] by {
            assert(s[i] != s[j]);
        }
        lemma_revoke_count(d, b, t);
        let last = s[s.len() - 1];
        assert(s.last() == last);
        if last.board_id == b && last.user_id == t {
            assert(is_member(s, b, t));
            if is_member(d, b, t) {
                let k = choose|k: int| 0 <= k < d.len() && #[trigger] d[k].board_id == b && d[k].user_id == t;
                assert(s[k] == d[k]);
                assert(s[k] != s[s.len() - 1]);
            }
        } else {
            if is_member(s, b, t) {
                let k = choose|k: int| 0 <= k < s.len() && #[trigger] s[k].board_id == b && s[k].user_id == t;
                assert(k < d.len());
                assert(d[k] == s[k]);
            }
            if is_member(d, b, t) {
                let k = choose|k: int| 0 <= k < d.len() && #[trigger] d[k].board_id == b && d[k].user_id == t;
                assert(s[k] == d[k]);
            }
        }
    }
}

/// `board revoke` removes one member row of a member and none of anyone
/// else, on tables where no user is a member of a board twice: its report
/// reads `"revoked 1 row(s)"` or `"revoked 0 row(s)"`.
pub proof fn law_revoke_counts_membership(
    old: Db,
    new: Db,
    actor: String,
    board: String,
    target: String,
    r: Result<Outcome, CmdError>,
    b: i64,
    t: i64,
)
    requires
        board_revoke_outcome(old, new, actor, board, target, r),
        crate::wellformed::tables_keyed(old),
        r is Ok,
        board_access(old, actor@, board@, "assign"@) matches Some((a, bb)) && bb == b,
        user_id_named(old.users@, target@) == Some(t),
    ensures
        r matches Ok(out) && views(out.lines@) =~= seq![
            "revoked "@ + nat_decimal(
                if is_member(old.members@, b, t) {
                    1nat
                } else {
                    0nat
                },
            ) + " row(s)"@,
        ],
{
    lemma_revoke_count(old.members@, b, t);
}


/// The boards that the board list shows `actor`, in table order.
pub open spec fn listed_boards(db: Db, boards: Seq<Board>, actor: i64) -> Seq<Board>
    decreases boards.len(),
{
    if boards.len() == 0 {
        Seq::<Board>::empty()
    } else {
        let prev = listed_boards(db, boards.drop_last(), actor);
        let b = boards.last();
        if sees_board(db.permissions@, actor, b) && user_name_of(db.users@, b.owner_id) is Some {
            prev.push(b)
        } else {
            prev
        }
    }
}

/// The line of board `b` in the board list.
pub open spec fn listed_board_line(db: Db, b: Board) -> Seq<char> {
    board_row_line(b, user_name_of(db.users@, b.owner_id)->0)
}

proof fn lemma_listed_boards(db: Db, boards: Seq<Board>, actor: i64)
    requires
        forall|i: int, j: int| 0 <= i < j < boards.len() ==> #[trigger] boards[i].id < #[trigger] boards[j].id,
    ensures
        ({
            let shown = listed_boards(db, boards, actor);
            &&& board_list_rows(db, boards, actor) == shown.map_values(|b: Board| listed_board_line(db, b))
            &&& forall|i: int, j: int| 0 <= i < j < shown.len() ==> #[trigger] shown[i].id < #[trigger] shown[j].id
            &&& forall|k: int| 0 <= k < shown.len() ==> exists|j: int| 0 <= j < boards.len() && boards[j] == #[trigger] shown[k]
        }),
    decreases boards.len(),
{
    let shown = listed_boards(db, boards, actor);
    if boards.len() == 0 {
        assert(shown.map_values(|b: Board| listed_board_line(db, b)) =~= Seq::<Seq<char>>::empty());
    } else {
        let d = boards.drop_last();
        assert forall|i: int, j: int| 0 <= i < j < d.len() implies #[trigger] d[i].id < #[trigger] d[j].id by {
            assert(boards[i].id < boards[j].id);
        }
        lemma_listed_boards(db, d, actor);
        let prev = listed_boards(db, d, actor);
        let last = boards.last();
        assert(last == boards[boards.len() - 1]);
        assert forall|k: int| 0 <= k < prev.len() implies prev[k].id < last.id by {
            let j = choose|j: int| 0 <= j < d.len() && d[j] == #[trigger] prev[k];
            assert(boards[j] == d[j]);
        }
        if sees_board(db.permissions@, actor, last) && user_name_of(db.users@, last.owner_id) is Some {
            assert(shown == prev.push(last));
            assert(shown.map_values(|b: Board| listed_board_line(db, b)) =~= prev.map_values(
                |b: Board| listed_board_line(db, b),
            ).push(listed_board_line(db, last)));
            assert forall|k: int| 0 <= k < shown.len() implies exists|j: int| 0 <= j < boards.len() && boards[j] == #[trigger] shown[k] by {
                if k < prev.len() {
                    let j = choose|j: int| 0 <= j < d.len() && d[j] == #[trigger] prev[k];
                    assert(boards[j] == d[j]);
                    assert(shown[k] == prev[k]);
                } else {
                    assert(shown[k] == boards[boards.len() - 1]);
                }
            }
            assert forall|i: int, j: int| 0 <= i < j < shown.len() implies #[trigger] shown[i].id < #[trigger] shown[j].id by {
                assert(shown[i] == prev[i]);
                if j < prev.len() {
                    assert(shown[j] == prev[j]);
                }
            }
        } else {
            assert forall|k: int| 0 <= k < shown.len() implies exists|j: int| 0 <= j < boards.len() && boards[j] == #[trigger] shown[k] by {
                let j = choose|j: int| 0 <= j < d.len() && d[j] == #[trigger] prev[k];
                assert(boards[j] == d[j]);
            }
        }
    }
}

/// `board list` shows boards in increasing order of id: its rows are the
/// lines of the boards it keeps, in table order, and on keyed tables the
/// ids of those boards increase.
pub proof fn law_board_list_in_id_order(db: Db, actor: i64)
    requires
        crate::wellformed::tables_keyed(db),
    ensures
        board_list_rows(db, db.boards@, actor) == listed_boards(db, db.boards@, actor).map_values(
            |b: Board| listed_board_line(db, b),
        ),
        forall|i: int, j: int|
            0 <= i < j < listed_boards(db, db.boards@, actor).len() ==> #[trigger] listed_boards(
                db,
                db.boards@,
                actor,
            )[i].id < #[trigger] listed_boards(db, db.boards@, actor)[j].id,
{
    lemma_listed_boards(db, db.boards@, actor);
}

} // verus!
