//! Users: looking them up, creating them, and the `init` and `user`
//! commands.
use vstd::prelude::*;

use crate::error::{app_err, fails_with, fails_with_text, CmdError};
use crate::store::{
    board_owner, find_user_by_name, max_id, no_user_named, only_users_changed,
    user_id_named, user_ids, Db, Outcome, User,
};
use crate::text::{
    append_i64, append_padded, append_str, append_usize, chars_of, i64_decimal, int_decimal,
    nat_decimal, pad_right, views,
};

use crate::wellformed::{lemma_well_formed_same_links, same_links, well_formed};

verus! {

/// The message for a user that does not exist.
pub open spec fn user_not_found_msg(name: Seq<char>) -> Seq<char> {
    "user '"@ + name + "' not found"@
}

/// The id of the user named `name`; an `auth` error when there is none.
pub fn get_user_id(db: &Db, name: &String) -> (r: Result<i64, CmdError>)
    ensures
        r matches Ok(id) ==> user_id_named(db.users@, name@) == Some(id),
        r is Err <==> user_id_named(db.users@, name@) is None,
        r matches Err(e) ==> e.is_app("auth"@, user_not_found_msg(name@)),
{
    match find_user_by_name(&db.users, name) {
        Some(i) => Ok(db.users[i].id),
        None => {
            let mut m = String::new();
            append_str(&mut m, "user '");
            append_str(&mut m, name.as_str());
            append_str(&mut m, "' not found");
            Err(app_err("auth", m))
        },
    }
}

/// The users once `name`, when given, is made sure to be a user: a name
/// that no user has is added with the next free id.
pub open spec fn with_user(users: Seq<User>, name: Option<String>) -> Seq<User> {
    match name {
        Some(n) => if user_id_named(users, n@) is None {
            users.push(User { id: (max_id(user_ids(users)) + 1) as i64, name: n })
        } else {
            users
        },
        None => users,
    }
}

/// Whether `name`, when given, is a user already or a new user can still
/// get an id.
pub open spec fn user_room(users: Seq<User>, name: Option<String>) -> bool {
    match name {
        Some(n) => user_id_named(users, n@) is Some || max_id(user_ids(users)) < i64::MAX,
        None => true,
    }
}

/// The id of the user named `name`, creating the user when there is none;
/// a new user gets the next free id.
pub fn get_or_create_user(db: &mut Db, name: &String) -> (r: Result<
    i64,
    CmdError,
>)
    ensures
        user_id_named(old(db).users@, name@) matches Some(id) ==> r == Ok::<i64, CmdError>(id)
            && *final(db) == *old(db),
        user_id_named(old(db).users@, name@) is None ==> (r is Ok <==> max_id(
            user_ids(old(db).users@),
        ) < i64::MAX),
        r matches Ok(id) ==> user_id_named(final(db).users@, name@) == Some(id),
        user_id_named(old(db).users@, name@) is None && r is Ok ==> {
            let n = max_id(user_ids(old(db).users@)) + 1;
            &&& r == Ok::<i64, CmdError>(n as i64)
            &&& final(db).users@ == old(db).users@.push(User { id: n as i64, name: *name })
            &&& only_users_changed(*old(db), *final(db))
        },
        r is Err ==> *final(db) == *old(db),
        r matches Err(e) ==> e is Store && e.text() == crate::store::full_msg(),
{
    match find_user_by_name(&db.users, name) {
        Some(i) => Ok(db.users[i].id),
        None => {
            let id = crate::store::next_user_id(&db.users)?;
            let ghost u0 = db.users@;
            db.users.push(User { id, name: name.clone() });
            proof {
                crate::store::lemma_user_id_named_push(u0, User { id, name: *name });
            }
            Ok(id)
        },
    }
}

/// The line `"<text><name> (<id>)"`.
fn name_id_line(text: &str, name: &String, id: i64) -> (s: String)
    ensures
        s@ == text@ + name@ + " ("@ + int_decimal(id as int) + ")"@,
{
    let mut s = String::new();
    append_str(&mut s, text);
    append_str(&mut s, name.as_str());
    append_str(&mut s, " (");
    append_i64(&mut s, id);
    append_str(&mut s, ")");
    s
}

/// What `init` does: the result `r` and, for a command that changes the
/// tables, the tables `new` that it leaves of `old`.
pub open spec fn init_outcome(
    old: Db,
    new: Db,
    actor: String,
    r: Result<Outcome, CmdError>,
) -> bool {
    &&& (well_formed(old) ==> well_formed(new))
    &&& (crate::wellformed::tables_keyed(old) ==> crate::wellformed::tables_keyed(new))
    &&& (r is Err ==> new == old)
    &&& (user_id_named(old.users@, actor@) is Some ==> r is Ok)
    &&& (r matches Ok(out) ==> user_id_named(new.users@, actor@) matches Some(id)
        && views(out.lines@) =~= seq!["initialized user "@ + actor@ + " ("@ + int_decimal(id as int) + ")"@])
    &&& (r is Ok ==> new.users@ == with_user(old.users@, Some(actor)))
    &&& (r is Ok ==> only_users_changed(old, new))
}

/// `init`: registers `actor` (a no-op for a known user) and reports
/// `"initialized user <actor> (<id>)"`.
pub fn cmd_init(db: &mut Db, actor: &String) -> (r: Result<Outcome, CmdError>)
    ensures
        init_outcome(*old(db), *final(db), *actor, r),
{
    let id = get_or_create_user(db, actor)?;
    let mut lines: Vec<String> = Vec::new();
    lines.push(name_id_line("initialized user ", actor, id));
    proof {
        if well_formed(*old(db)) {
            crate::wellformed::lemma_well_formed_kept(*old(db), *db);
        }
    }
    Ok(Outcome { lines })
}

/// What `user add` does: the result `r` and, for a command that changes the
/// tables, the tables `new` that it leaves of `old`.
pub open spec fn user_add_outcome(
    old: Db,
    new: Db,
    actor: String,
    name: String,
    r: Result<Outcome, CmdError>,
) -> bool {
    &&& (well_formed(old) ==> well_formed(new))
    &&& (crate::wellformed::tables_keyed(old) ==> crate::wellformed::tables_keyed(new))
    &&& (r is Err ==> new == old)
    &&& (user_id_named(old.users@, actor@) is None ==> fails_with(r, "auth"@, user_not_found_msg(actor@)))
    &&& (user_id_named(old.users@, actor@) is Some && user_id_named(old.users@, name@) is Some
        ==> r is Ok)
    &&& (r matches Ok(out) ==> user_id_named(new.users@, name@) matches Some(id)
        && views(out.lines@) =~= seq!["added user "@ + name@ + " ("@ + int_decimal(id as int) + ")"@])
    &&& (r is Ok ==> new.users@ == with_user(old.users@, Some(name)))
    &&& (r is Ok ==> only_users_changed(old, new))
}

/// `user add`: `actor` must be a known user; registers `name` (a no-op for a
/// known user) and reports `"added user <name> (<id>)"`.
pub fn cmd_user_add(db: &mut Db, actor: &String, name: &String) -> (r: Result<Outcome, CmdError>)
    ensures
        user_add_outcome(*old(db), *final(db), *actor, *name, r),
{
    let _ = get_user_id(db, actor)?;
    let id = get_or_create_user(db, name)?;
    let mut lines: Vec<String> = Vec::new();
    lines.push(name_id_line("added user ", name, id));
    proof {
        if well_formed(*old(db)) {
            crate::wellformed::lemma_well_formed_kept(*old(db), *db);
        }
    }
    Ok(Outcome { lines })
}

/// Keeps the users not named `name`.
pub open spec fn not_named(name: Seq<char>) -> spec_fn(User) -> bool {
    |u: User| u.name@ != name
}

/// Some user named `name` has id `id`.
pub open spec fn named_user_has_id(users: Seq<User>, name: Seq<char>, id: i64) -> bool {
    exists|k: int| 0 <= k < users.len() && users[k].name@ == name && #[trigger] users[k].id == id
}

/// Keeps the memberships of users other than those named `name`.
pub open spec fn member_of_other(users: Seq<User>, name: Seq<char>) -> spec_fn(crate::store::Member) -> bool {
    |m: crate::store::Member| !named_user_has_id(users, name, m.user_id)
}

/// Keeps the permissions of users other than those named `name`.
pub open spec fn permission_of_other(users: Seq<User>, name: Seq<char>) -> spec_fn(
    crate::store::Permission,
) -> bool {
    |p: crate::store::Permission| !named_user_has_id(users, name, p.user_id)
}

/// The error text of a removal that a board's owner reference forbids.
pub open spec fn foreign_key_msg() -> Seq<char> {
    "FOREIGN KEY constraint failed"@
}

/// What `user remove` does: the result `r` and, for a command that changes the
/// tables, the tables `new` that it leaves of `old`.
pub open spec fn user_remove_outcome(
    old: Db,
    new: Db,
    actor: String,
    name: String,
    r: Result<Outcome, CmdError>,
) -> bool {
    &&& (well_formed(old) ==> well_formed(new))
    &&& (crate::wellformed::tables_keyed(old) ==> crate::wellformed::tables_keyed(new))
    &&& (r is Err ==> new == old)
    &&& (user_id_named(old.users@, actor@) is None ==> fails_with(r, "auth"@, user_not_found_msg(actor@)))
    &&& (user_id_named(old.users@, actor@) is Some ==> (r is Err <==> exists|b: int|
        0 <= b < old.boards@.len() && named_user_has_id(
            old.users@,
            name@,
            #[trigger] old.boards@[b].owner_id,
        )))
    &&& (user_id_named(old.users@, actor@) is Some && r is Err ==> fails_with_text(r, foreign_key_msg()))
    &&& (r matches Ok(out) ==> {
        &&& new.users@ == old.users@.filter(not_named(name@))
        &&& new.boards@ == old.boards@
        &&& new.tasks@ == old.tasks@
        &&& new.dependencies@ == old.dependencies@
        &&& new.notes@ == old.notes@
        &&& new.members@ == old.members@.filter(member_of_other(old.users@, name@))
        &&& new.permissions@ == old.permissions@.filter(permission_of_other(old.users@, name@))
        &&& views(out.lines@) =~= seq![
            "removed "@ + nat_decimal(
                (old.users@.len() - new.users@.len()) as nat,
            ) + " row(s)"@,
        ]
    })
}

/// `user remove`: `actor` must be a known user; removes the users named
/// `name`, with their board memberships and permissions, and reports
/// `"removed <n> row(s)"`. Removing the owner of a board is refused as a
/// foreign key violation.
#[verifier::loop_isolation(false)]
pub fn cmd_user_remove(db: &mut Db, actor: &String, name: &String) -> (r: Result<Outcome, CmdError>)
    ensures
        user_remove_outcome(*old(db), *final(db), *actor, *name, r),
{
    let _ = get_user_id(db, actor)?;
    let mut removed: Vec<i64> = Vec::new();
    let mut kept: Vec<User> = Vec::new();
    let mut i: usize = 0;
    let ghost pred = not_named(name@);
    assert(db.users@.take(0) =~= Seq::<User>::empty());
    while i < db.users.len()
        invariant
            i <= db.users@.len(),
            pred == not_named(name@),
            kept@ == db.users@.take(i as int).filter(pred),
            forall|id: i64| removed@.contains(id) <==> named_user_has_id(db.users@.take(i as int), name@, id),
            kept@.len() + removed@.len() == i,
        decreases db.users@.len() - i,
    {
        reveal_with_fuel(Seq::<_>::filter, 1);
        let ghost t = db.users@.take(i as int);
        assert(db.users@.take(i + 1).drop_last() =~= t);
        assert(db.users@.take(i + 1) =~= t.push(db.users@[i as int]));
        let u = &db.users[i];
        if u.name == *name {
            let ghost r0 = removed@;
            removed.push(u.id);
            assert(removed@ == r0.push(u.id));
            assert forall|id: i64| removed@.contains(id) <==> named_user_has_id(db.users@.take(i + 1), name@, id) by {
                if named_user_has_id(db.users@.take(i + 1), name@, id) && id != u.id {
                    let k = choose|k: int| 0 <= k < i + 1 && db.users@.take(i + 1)[k].name@ == name@ && #[trigger] db.users@.take(i + 1)[k].id == id;
                    assert(k < i);
                    assert(t[k] == db.users@.take(i + 1)[k]);
                    assert(named_user_has_id(t, name@, id));
                    assert(r0.contains(id));
                    let j = choose|j: int| 0 <= j < r0.len() && r0[j] == id;
                    assert(removed@[j] == id);
                }
                if removed@.contains(id) && id != u.id {
                    let j = choose|j: int| 0 <= j < removed@.len() && removed@[j] == id;
                    assert(j < r0.len());
                    assert(r0[j] == id);
                    assert(r0.contains(id));
                    assert(named_user_has_id(t, name@, id));
                    let k = choose|k: int| 0 <= k < t.len() && t[k].name@ == name@ && #[trigger] t[k].id == id;
                    assert(db.users@.take(i + 1)[k] == t[k]);
                }
                if id == u.id {
                    assert(db.users@.take(i + 1)[i as int] == db.users@[i as int]);
                    assert(removed@[removed@.len() - 1] == id);
                }
            }
        } else {
            kept.push(User { id: u.id, name: u.name.clone() });
            assert forall|id: i64| removed@.contains(id) <==> named_user_has_id(db.users@.take(i + 1), name@, id) by {
                if named_user_has_id(db.users@.take(i + 1), name@, id) {
                    let k = choose|k: int| 0 <= k < i + 1 && db.users@.take(i + 1)[k].name@ == name@ && #[trigger] db.users@.take(i + 1)[k].id == id;
                    assert(k < i);
                    assert(t[k] == db.users@.take(i + 1)[k]);
                }
                if removed@.contains(id) {
                    let k = choose|k: int| 0 <= k < t.len() && t[k].name@ == name@ && #[trigger] t[k].id == id;
                    assert(db.users@.take(i + 1)[k] == t[k]);
                }
            }
        }
        i = i + 1;
    }
    assert(db.users@.take(db.users@.len() as int) =~= db.users@);
    let mut b: usize = 0;
    while b < db.boards.len()
        invariant
            b <= db.boards@.len(),
            forall|id: i64| removed@.contains(id) <==> named_user_has_id(db.users@, name@, id),
            forall|j: int| 0 <= j < b ==> !named_user_has_id(db.users@, name@, #[trigger] db.boards@[j].owner_id),
        decreases db.boards@.len() - b,
    {
        if contains_id(&removed, db.boards[b].owner_id) {
            let mut m = String::new();
            append_str(&mut m, "FOREIGN KEY constraint failed");
            return Err(CmdError::Store(m));
        }
        b = b + 1;
    }
    let mut members: Vec<crate::store::Member> = Vec::new();
    let mut k: usize = 0;
    let ghost mpred = member_of_other(db.users@, name@);
    assert(db.members@.take(0) =~= Seq::<crate::store::Member>::empty());
    while k < db.members.len()
        invariant
            k <= db.members@.len(),
            mpred == member_of_other(db.users@, name@),
            forall|id: i64| removed@.contains(id) <==> named_user_has_id(db.users@, name@, id),
            members@ == db.members@.take(k as int).filter(mpred),
        decreases db.members@.len() - k,
    {
        reveal_with_fuel(Seq::<_>::filter, 1);
        let ghost t = db.members@.take(k as int);
        assert(db.members@.take(k + 1).drop_last() =~= t);
        let m = &db.members[k];
        if !contains_id(&removed, m.user_id) {
            members.push(crate::store::Member { board_id: m.board_id, user_id: m.user_id });
        }
        k = k + 1;
    }
    assert(db.members@.take(db.members@.len() as int) =~= db.members@);
    let mut perms: Vec<crate::store::Permission> = Vec::new();
    let mut k: usize = 0;
    let ghost ppred = permission_of_other(db.users@, name@);
    assert(db.permissions@.take(0) =~= Seq::<crate::store::Permission>::empty());
    while k < db.permissions.len()
        invariant
            k <= db.permissions@.len(),
            ppred == permission_of_other(db.users@, name@),
            forall|id: i64| removed@.contains(id) <==> named_user_has_id(db.users@, name@, id),
            perms@ == db.permissions@.take(k as int).filter(ppred),
        decreases db.permissions@.len() - k,
    {
        reveal_with_fuel(Seq::<_>::filter, 1);
        let ghost t = db.permissions@.take(k as int);
        assert(db.permissions@.take(k + 1).drop_last() =~= t);
        let p = &db.permissions[k];
        if !contains_id(&removed, p.user_id) {
            perms.push(crate::store::Permission { board_id: p.board_id, user_id: p.user_id, action: p.action.clone() });
        }
        k = k + 1;
    }
    assert(db.permissions@.take(db.permissions@.len() as int) =~= db.permissions@);
    let count = removed.len();
    db.users = kept;
    db.members = members;
    db.permissions = perms;
    let mut line = String::new();
    append_str(&mut line, "removed ");
    append_usize(&mut line, count);
    append_str(&mut line, " row(s)");
    let mut lines: Vec<String> = Vec::new();
    lines.push(line);
    proof {
        if well_formed(*old(db)) {
            crate::wellformed::lemma_well_formed_kept(*old(db), *db);
        }
        if crate::wellformed::tables_keyed(*old(db)) {
            crate::wellformed::lemma_keyed_filter(*old(db), *db, |b: crate::store::Board| true, mpred);
        }
    }
    Ok(Outcome { lines })
}

/// Whether `ids` holds `id`.
pub fn contains_id(ids: &Vec<i64>, id: i64) -> (r: bool)
    ensures
        r == ids@.contains(id),
{
    let mut i: usize = 0;
    while i < ids.len()
        invariant
            i <= ids.len(),
            forall|k: int| 0 <= k < i ==> ids@[k] != id,
        decreases ids.len() - i,
    {
        if ids[i] == id {
            return true;
        }
        i = i + 1;
    }
    false
}

/// A row of the user list: the id padded to four characters, then the name.
pub open spec fn user_row_line(u: User) -> Seq<char> {
    pad_right(int_decimal(u.id as int), 4) + " "@ + u.name@
}

/// What `user list` does: the result `r` and, for a command that changes the
/// tables, the tables `new` that it leaves of `old`.
pub open spec fn user_list_outcome(
    db: Db,
    actor: String,
    r: Result<Outcome, CmdError>,
) -> bool {
    &&& (user_id_named(db.users@, actor@) is None ==> fails_with(r, "auth"@, user_not_found_msg(actor@)))
    &&& (user_id_named(db.users@, actor@) is Some ==> r is Ok)
    &&& (r matches Ok(out) ==> {
        &&& out.lines@.len() == db.users@.len() + 1
        &&& out.lines@[0]@ == pad_right("ID"@, 4) + " NAME"@
        &&& forall|k: int| 0 <= k < db.users@.len() ==> #[trigger] out.lines@[k + 1]@ == user_row_line(db.users@[k])
    })
}

/// `user list`: `actor` must be a known user; lists every user, id and
/// name, in the order of the table, under a header.
pub fn cmd_user_list(db: &Db, actor: &String) -> (r: Result<Outcome, CmdError>)
    ensures
        user_list_outcome(*db, *actor, r),
{
    let _ = get_user_id(db, actor)?;
    let mut lines: Vec<String> = Vec::new();
    let mut head = String::new();
    let id_label = chars_of("ID");
    append_padded(&mut head, &id_label, 4);
    append_str(&mut head, " NAME");
    lines.push(head);
    let mut i: usize = 0;
    while i < db.users.len()
        invariant
            i <= db.users@.len(),
            lines@.len() == i + 1,
            lines@[0]@ == pad_right("ID"@, 4) + " NAME"@,
            forall|k: int| 0 <= k < i ==> #[trigger] lines@[k + 1]@ == user_row_line(db.users@[k]),
        decreases db.users@.len() - i,
    {
        let u = &db.users[i];
        let mut line = String::new();
        let digits = i64_decimal(u.id);
        append_padded(&mut line, &digits, 4);
        append_str(&mut line, " ");
        append_str(&mut line, u.name.as_str());
        lines.push(line);
        i = i + 1;
    }
    Ok(Outcome { lines })
}

} // verus!
