//! Board permissions: the actions a member can be granted, who may do what,
//! and how a board is named on the command line.
use vstd::prelude::*;

use crate::error::{app_err, app_err_str, CmdError};
use crate::store::{
    board_owner, find_board_by_id, find_board_by_name, first_board_named, first_board_with_id,
    no_board_named, no_board_with_id, Db, Permission,
};
use crate::text::{append_str, chars_of, parse_i64_chars, spec_parse_i64, views};

verus! {

/// The number of board actions.
pub const ACTION_COUNT: usize = 7;

/// The actions a board member can be granted, in their canonical order.
pub open spec fn action_names() -> Seq<Seq<char>> {
    seq![
        "read"@,
        "create"@,
        "update"@,
        "delete"@,
        "set_status"@,
        "assign"@,
        "delete_board"@,
    ]
}

/// The `i`-th board action.
pub fn action_name(i: usize) -> (r: &'static str)
    requires
        i < ACTION_COUNT,
    ensures
        r@ == action_names()[i as int],
{
    match i {
        0 => "read",
        1 => "create",
        2 => "update",
        3 => "delete",
        4 => "set_status",
        5 => "assign",
        _ => "delete_board",
    }
}

/// `a` is one of the board actions.
pub open spec fn is_action(a: Seq<char>) -> bool {
    action_names().contains(a)
}

/// Whether `a` is one of the board actions.
pub fn is_known_action(a: &String) -> (r: bool)
    ensures
        r == is_action(a@),
{
    let mut i: usize = 0;
    while i < ACTION_COUNT
        invariant
            i <= ACTION_COUNT,
            forall|k: int| 0 <= k < i ==> action_names()[k] != a@,
        decreases ACTION_COUNT - i,
    {
        let name = String::from_str(action_name(i));
        if name == *a {
            assert(action_names()[i as int] == a@);
            return true;
        }
        i = i + 1;
    }
    false
}

/// Whether some string of `v` equals `s`.
pub fn contains_string(v: &Vec<String>, s: &String) -> (r: bool)
    ensures
        r == views(v@).contains(s@),
{
    let mut i: usize = 0;
    while i < v.len()
        invariant
            i <= v.len(),
            forall|k: int| 0 <= k < i ==> v@[k]@ != s@,
        decreases v.len() - i,
    {
        if v[i] == *s {
            assert(views(v@)[i as int] == s@);
            return true;
        }
        i = i + 1;
    }
    assert forall|k: int| 0 <= k < views(v@).len() implies views(v@)[k] != s@ by {
        assert(views(v@)[k] == v@[k]@);
    }
    false
}

/// The actions of `names` that occur in `given`, in the order of `names`.
pub open spec fn keep_given(names: Seq<Seq<char>>, given: Seq<Seq<char>>) -> Seq<Seq<char>>
    decreases names.len(),
{
    if names.len() == 0 {
        Seq::<Seq<char>>::empty()
    } else {
        let prev = keep_given(names.drop_last(), given);
        if given.contains(names.last()) {
            prev.push(names.last())
        } else {
            prev
        }
    }
}

/// A list of actions in canonical form: the known actions that occur in
/// `given`, each once, in the canonical order of [`action_names`].
pub open spec fn normalized_actions(given: Seq<Seq<char>>) -> Seq<Seq<char>> {
    keep_given(action_names(), given)
}

/// Puts a list of actions into canonical form: each known action that
/// occurs in it, once, in the canonical order; other names are left out.
pub fn normalize_action_list(actions: Vec<String>) -> (r: Vec<String>)
    ensures
        views(r@) == normalized_actions(views(actions@)),
{
    let mut out: Vec<String> = Vec::new();
    let mut i: usize = 0;
    assert(action_names().take(0) =~= Seq::<Seq<char>>::empty());
    while i < ACTION_COUNT
        invariant
            i <= ACTION_COUNT,
            views(out@) == keep_given(action_names().take(i as int), views(actions@)),
        decreases ACTION_COUNT - i,
    {
        let name = String::from_str(action_name(i));
        assert(action_names().take(i + 1).drop_last() =~= action_names().take(i as int));
        if contains_string(&actions, &name) {
            out.push(name);
            assert(views(out@) =~= views(out@.drop_last()).push(name@));
        }
        i = i + 1;
    }
    assert(action_names().take(7) =~= action_names());
    out
}

/// Actor `actor` holds a permission row for `action` on board `board_id`.
pub open spec fn has_permission(
    perms: Seq<Permission>,
    board_id: i64,
    actor: i64,
    action: Seq<char>,
) -> bool {
    exists|k: int|
        0 <= k < perms.len() && #[trigger] perms[k].board_id == board_id && perms[k].user_id
            == actor && perms[k].action@ == action
}

/// Whether `actor` holds a permission row for `action` on board `board_id`.
pub fn has_member_permission(db: &Db, actor: i64, board_id: i64, action: &String) -> (r: bool)
    ensures
        r == has_permission(db.permissions@, board_id, actor, action@),
{
    let mut i: usize = 0;
    while i < db.permissions.len()
        invariant
            i <= db.permissions@.len(),
            forall|k: int|
                0 <= k < i ==> !(db.permissions@[k].board_id == board_id
                    && db.permissions@[k].user_id == actor && db.permissions@[k].action@
                    == action@),
        decreases db.permissions@.len() - i,
    {
        let p = &db.permissions[i];
        if p.board_id == board_id && p.user_id == actor && p.action == *action {
            return true;
        }
        i = i + 1;
    }
    false
}

/// Whether `actor` owns board `board_id`.
pub fn is_board_owner(db: &Db, actor: i64, board_id: i64) -> (r: bool)
    ensures
        r == (board_owner(db.boards@, board_id) == Some(actor)),
{
    match find_board_by_id(&db.boards, board_id) {
        Some(i) => db.boards[i].owner_id == actor,
        None => false,
    }
}

/// Who may do `action` on board `board_id`: its owner may do everything;
/// anyone else needs a permission row for a known action.
pub open spec fn may_act(db: Db, actor: i64, board_id: i64, action: Seq<char>) -> bool {
    ||| board_owner(db.boards@, board_id) == Some(actor)
    ||| (is_action(action) && has_permission(db.permissions@, board_id, actor, action))
}

/// Checks that `actor` may do `action` on board `board_id`. The owner may
/// do everything; for anyone else an unknown action is a `system` error,
/// and a known action without a permission row is `forbidden`.
pub fn require_action(db: &Db, actor: i64, board_id: i64, action: &String) -> (r: Result<
    (),
    CmdError,
>)
    ensures
        r is Ok <==> may_act(*db, actor, board_id, action@),
        r matches Err(e) ==> board_owner(db.boards@, board_id) != Some(actor) && (if is_action(
            action@,
        ) {
            e.is_app("forbidden"@, action@ + " denied"@)
        } else {
            e.is_app("system"@, "unknown action '"@ + action@ + "'"@)
        }),
{
    if is_board_owner(db, actor, board_id) {
        return Ok(());
    }
    if !is_known_action(action) {
        let mut m = String::new();
        append_str(&mut m, "unknown action '");
        append_str(&mut m, action.as_str());
        append_str(&mut m, "'");
        return Err(app_err("system", m));
    }
    if has_member_permission(db, actor, board_id, action) {
        return Ok(());
    }
    let mut m = String::new();
    append_str(&mut m, action.as_str());
    append_str(&mut m, " denied");
    Err(app_err("forbidden", m))
}

/// [`require_action`] for an action given as a string slice.
pub fn require(db: &Db, actor: i64, board_id: i64, action: &str) -> (r: Result<(), CmdError>)
    ensures
        r is Ok <==> may_act(*db, actor, board_id, action@),
        r matches Err(e) ==> board_owner(db.boards@, board_id) != Some(actor) && (if is_action(
            action@,
        ) {
            e.is_app("forbidden"@, action@ + " denied"@)
        } else {
            e.is_app("system"@, "unknown action '"@ + action@ + "'"@)
        }),
{
    let a = String::from_str(action);
    require_action(db, actor, board_id, &a)
}

/// The actions of the permission rows of `user_id` on board `board_id`,
/// in the order of the rows.
pub open spec fn granted_actions(perms: Seq<Permission>, board_id: i64, user_id: i64) -> Seq<
    Seq<char>,
>
    decreases perms.len(),
{
    if perms.len() == 0 {
        Seq::<Seq<char>>::empty()
    } else {
        let prev = granted_actions(perms.drop_last(), board_id, user_id);
        if perms.last().board_id == board_id && perms.last().user_id == user_id {
            prev.push(perms.last().action@)
        } else {
            prev
        }
    }
}

/// The actions that `user_id` holds on board `board_id`, in canonical form.
pub fn member_permissions(db: &Db, board_id: i64, user_id: i64) -> (r: Vec<String>)
    ensures
        views(r@) == normalized_actions(granted_actions(db.permissions@, board_id, user_id)),
{
    let mut out: Vec<String> = Vec::new();
    let mut i: usize = 0;
    assert(db.permissions@.take(0) =~= Seq::<Permission>::empty());
    while i < db.permissions.len()
        invariant
            i <= db.permissions@.len(),
            views(out@) == granted_actions(db.permissions@.take(i as int), board_id, user_id),
        decreases db.permissions@.len() - i,
    {
        let p = &db.permissions[i];
        assert(db.permissions@.take(i + 1).drop_last() =~= db.permissions@.take(i as int));
        if p.board_id == board_id && p.user_id == user_id {
            out.push(p.action.clone());
            assert(views(out@) =~= views(out@.drop_last()).push(p.action@));
        }
        i = i + 1;
    }
    assert(db.permissions@.take(db.permissions@.len() as int) =~= db.permissions@);
    normalize_action_list(out)
}

/// Keeps the permission rows that are not those of `user_id` on board `board_id`.
pub open spec fn other_permissions(board_id: i64, user_id: i64) -> spec_fn(Permission) -> bool {
    |p: Permission| !(p.board_id == board_id && p.user_id == user_id)
}

/// `after` is `before` with the permission rows of `user_id` on board
/// `board_id` replaced by rows for `actions`, appended in their order.
pub open spec fn replaced_permissions(
    before: Seq<Permission>,
    after: Seq<Permission>,
    board_id: i64,
    user_id: i64,
    actions: Seq<Seq<char>>,
) -> bool {
    let kept = before.filter(other_permissions(board_id, user_id));
    &&& after.len() == kept.len() + actions.len()
    &&& after.take(kept.len() as int) == kept
    &&& forall|k: int|
        0 <= k < actions.len() ==> #[trigger] after[kept.len() + k].board_id == board_id
            && after[kept.len() + k].user_id == user_id && after[kept.len() + k].action@
            == actions[k]
}

/// The permission rows that are not those of `user_id` on board `board_id`.
pub fn permissions_without(perms: &Vec<Permission>, board_id: i64, user_id: i64) -> (kept: Vec<
    Permission,
>)
    ensures
        kept@ == perms@.filter(other_permissions(board_id, user_id)),
{
    let ghost pred = other_permissions(board_id, user_id);
    let mut kept: Vec<Permission> = Vec::new();
    let mut i: usize = 0;
    assert(perms@.take(0) =~= Seq::<Permission>::empty());
    while i < perms.len()
        invariant
            i <= perms@.len(),
            pred == other_permissions(board_id, user_id),
            kept@ == perms@.take(i as int).filter(pred),
        decreases perms@.len() - i,
    {
        reveal_with_fuel(Seq::<_>::filter, 1);
        assert(perms@.take(i + 1).drop_last() =~= perms@.take(i as int));
        let p = &perms[i];
        if !(p.board_id == board_id && p.user_id == user_id) {
            let q = Permission { board_id: p.board_id, user_id: p.user_id, action: p.action.clone() };
            assert(q == perms@[i as int]);
            kept.push(q);
        }
        i = i + 1;
    }
    assert(perms@.take(perms@.len() as int) =~= perms@);
    kept
}

/// Replaces the permissions of `user_id` on board `board_id` by `actions`
/// in canonical form. An empty canonical list is an `input` error; the
/// canonical list is returned.
pub fn set_member_permissions(
    db: &mut Db,
    board_id: i64,
    user_id: i64,
    actions: &Vec<String>,
) -> (r: Result<Vec<String>, CmdError>)
    ensures
        r matches Ok(n) ==> views(n@) == normalized_actions(views(actions@)),
        r is Err <==> normalized_actions(views(actions@)).len() == 0,
        r matches Err(e) ==> e.is_app("input"@, "at least one permission is required"@),
        r is Err ==> *final(db) == *old(db),
        r matches Ok(n) ==> replaced_permissions(
            old(db).permissions@,
            final(db).permissions@,
            board_id,
            user_id,
            views(n@),
        ),
        r is Ok ==> final(db).users@ == old(db).users@ && final(db).boards@ == old(db).boards@
            && final(db).members@ == old(db).members@ && final(db).tasks@ == old(db).tasks@
            && final(db).dependencies@ == old(db).dependencies@ && final(db).notes@
            == old(db).notes@,
{
    let mut copy: Vec<String> = Vec::new();
    let mut i: usize = 0;
    while i < actions.len()
        invariant
            i <= actions.len(),
            copy@ == actions@.take(i as int),
        decreases actions.len() - i,
    {
        copy.push(actions[i].clone());
        assert(copy@ =~= actions@.take(i + 1));
        i = i + 1;
    }
    assert(copy@ =~= actions@);
    let normalized = normalize_action_list(copy);
    if normalized.len() == 0 {
        return Err(app_err_str("input", "at least one permission is required"));
    }
    let mut perms = permissions_without(&db.permissions, board_id, user_id);
    let ghost kept = perms@;
    let mut k: usize = 0;
    while k < normalized.len()
        invariant
            k <= normalized@.len(),
            perms@.len() == kept.len() + k,
            perms@.take(kept.len() as int) == kept,
            forall|j: int|
                0 <= j < k ==> #[trigger] perms@[kept.len() + j].board_id == board_id
                    && perms@[kept.len() + j].user_id == user_id && perms@[kept.len()
                    + j].action@ == normalized@[j]@,
        decreases normalized@.len() - k,
    {
        let ghost before = perms@;
        perms.push(Permission { board_id, user_id, action: normalized[k].clone() });
        assert(perms@.take(kept.len() as int) =~= before.take(kept.len() as int));
        k = k + 1;
    }
    assert(normalized@.take(normalized@.len() as int) =~= normalized@);
    db.permissions = perms;
    Ok(normalized)
}

/// How `selector` names a board: by name if a board has that name; else by
/// id if it reads as an `i64` and a board has that id.
pub open spec fn selected_board(db: Db, selector: Seq<char>) -> Option<i64> {
    if !no_board_named(db.boards@, selector) {
        Some(db.boards@[choose|i: int| first_board_named(db.boards@, selector, i)].id)
    } else {
        match spec_parse_i64(selector) {
            Some(id) => if no_board_with_id(db.boards@, id) {
                None
            } else {
                Some(id)
            },
            None => None,
        }
    }
}

/// The id of the board that `selector` names: a board name, or else a
/// board id. A selector that is neither a name nor an `i64` is an `input`
/// error; an id that no board has is `not_found`.
pub fn resolve_board_id(db: &Db, selector: &String) -> (r: Result<i64, CmdError>)
    ensures
        r matches Ok(id) ==> selected_board(*db, selector@) == Some(id),
        r matches Ok(id) ==> !no_board_with_id(db.boards@, id),
        r is Err <==> selected_board(*db, selector@) is None,
        r matches Err(e) ==> if spec_parse_i64(selector@) is None {
            e.is_app("input"@, "board selector must be board name or id"@)
        } else {
            e.is_app("not_found"@, "board not found"@)
        },
{
    match find_board_by_name(&db.boards, selector) {
        Some(i) => {
            proof {
                let k = choose|k: int| first_board_named(db.boards@, selector@, k);
                assert(first_board_named(db.boards@, selector@, i as int));
                assert(k == i);
                assert(db.boards@[i as int].id == db.boards@[i as int].id);
            }
            Ok(db.boards[i].id)
        },
        None => {
            let chars = chars_of(selector.as_str());
            match parse_i64_chars(&chars) {
                None => Err(app_err_str("input", "board selector must be board name or id")),
                Some(id) => match find_board_by_id(&db.boards, id) {
                    Some(_) => Ok(id),
                    None => Err(app_err_str("not_found", "board not found")),
                },
            }
        },
    }
}

/// What [`keep_given`] keeps: the names that also occur in `given`.
proof fn lemma_keep_given_contains(names: Seq<Seq<char>>, given: Seq<Seq<char>>, x: Seq<char>)
    ensures
        keep_given(names, given).contains(x) <==> names.contains(x) && given.contains(x),
    decreases names.len(),
{
    if names.len() > 0 {
        let d = names.drop_last();
        lemma_keep_given_contains(d, given, x);
        let prev = keep_given(d, given);
        if given.contains(names.last()) {
            assert(keep_given(names, given) == prev.push(names.last()));
            if prev.push(names.last()).contains(x) && x != names.last() {
                let i = choose|i: int| 0 <= i < prev.len() + 1 && prev.push(names.last())[i] == x;
                assert(prev[i] == x);
            }
            if prev.contains(x) {
                let i = choose|i: int| 0 <= i < prev.len() && prev[i] == x;
                assert(prev.push(names.last())[i] == x);
            }
            assert(prev.push(names.last())[prev.len() as int] == names.last());
        }
        if names.contains(x) && x != names.last() {
            let i = choose|i: int| 0 <= i < names.len() && names[i] == x;
            assert(d[i] == x);
        }
        if d.contains(x) {
            let i = choose|i: int| 0 <= i < d.len() && d[i] == x;
            assert(names[i] == x);
        }
        assert(names[names.len() - 1] == names.last());
    }
}

/// [`keep_given`] depends only on which of the names occur in `given`.
proof fn lemma_keep_given_same(names: Seq<Seq<char>>, g1: Seq<Seq<char>>, g2: Seq<Seq<char>>)
    requires
        forall|i: int| 0 <= i < names.len() ==> (g1.contains(#[trigger] names[i]) <==> g2.contains(names[i])),
    ensures
        keep_given(names, g1) == keep_given(names, g2),
    decreases names.len(),
{
    if names.len() > 0 {
        let d = names.drop_last();
        assert forall|i: int| 0 <= i < d.len() implies (g1.contains(#[trigger] d[i]) <==> g2.contains(d[i])) by {
            assert(d[i] == names[i]);
        }
        lemma_keep_given_same(d, g1, g2);
        assert(names.last() == names[names.len() - 1]);
    }
}

/// Putting a list of actions into canonical form twice changes nothing.
pub proof fn law_normalized_actions_idempotent(given: Seq<Seq<char>>)
    ensures
        normalized_actions(normalized_actions(given)) == normalized_actions(given),
{
    let k = normalized_actions(given);
    assert forall|i: int| 0 <= i < action_names().len() implies (k.contains(#[trigger] action_names()[i])
        <==> given.contains(action_names()[i])) by {
        lemma_keep_given_contains(action_names(), given, action_names()[i]);
    }
    lemma_keep_given_same(action_names(), k, given);
}

proof fn lemma_granted_actions_kept(perms: Seq<Permission>, board_id: i64, user_id: i64)
    ensures
        granted_actions(perms.filter(other_permissions(board_id, user_id)), board_id, user_id)
            == Seq::<Seq<char>>::empty(),
    decreases perms.len(),
{
    let p = other_permissions(board_id, user_id);
    if perms.len() > 0 {
        let rest = perms.drop_last();
        let x = perms.last();
        lemma_granted_actions_kept(rest, board_id, user_id);
        assert(rest.push(x) =~= perms);
        rest.lemma_filter_push(x, p);
        if p(x) {
            let f = rest.filter(p).push(x);
            assert(f.drop_last() =~= rest.filter(p));
        }
    } else {
        reveal_with_fuel(Seq::<_>::filter, 1);
        assert(perms.filter(p) =~= perms);
    }
}

/// The permission rows after a replacement grant exactly the new actions.
proof fn lemma_granted_after_replace(
    before: Seq<Permission>,
    after: Seq<Permission>,
    board_id: i64,
    user_id: i64,
    actions: Seq<Seq<char>>,
    j: int,
)
    requires
        replaced_permissions(before, after, board_id, user_id, actions),
        0 <= j <= actions.len(),
    ensures
        granted_actions(
            after.take(before.filter(other_permissions(board_id, user_id)).len() + j),
            board_id,
            user_id,
        ) == actions.take(j),
    decreases j,
{
    let kept = before.filter(other_permissions(board_id, user_id));
    if j == 0 {
        lemma_granted_actions_kept(before, board_id, user_id);
        assert(after.take(kept.len() as int) == kept);
        assert(actions.take(0) =~= Seq::<Seq<char>>::empty());
    } else {
        lemma_granted_after_replace(before, after, board_id, user_id, actions, j - 1);
        let t = after.take(kept.len() + j);
        assert(t.drop_last() =~= after.take(kept.len() + j - 1));
        assert(t.last() == after[kept.len() + (j - 1)]);
        assert(after[kept.len() + (j - 1)].board_id == board_id);
        assert(t.last().user_id == user_id);
        assert(t.last().action@ == actions[j - 1]);
        assert(granted_actions(t, board_id, user_id) == granted_actions(t.drop_last(), board_id, user_id).push(t.last().action@));
        assert(actions.take(j) =~= actions.take(j - 1).push(actions[j - 1]));
    }
}

/// What a grant sets is what the member list shows: after the
/// permissions of a member are replaced by the canonical form of the given
/// actions, the member's permissions in canonical form are exactly that.
pub proof fn law_granted_permissions_are_listed(
    before: Seq<Permission>,
    after: Seq<Permission>,
    board_id: i64,
    user_id: i64,
    given: Seq<Seq<char>>,
)
    requires
        replaced_permissions(before, after, board_id, user_id, normalized_actions(given)),
    ensures
        normalized_actions(granted_actions(after, board_id, user_id)) == normalized_actions(given),
{
    let acts = normalized_actions(given);
    lemma_granted_after_replace(before, after, board_id, user_id, acts, acts.len() as int);
    let kept = before.filter(other_permissions(board_id, user_id));
    assert(after.take((kept.len() + acts.len()) as int) =~= after);
    assert(acts.take(acts.len() as int) =~= acts);
    law_normalized_actions_idempotent(given);
}

/// The owner of a board may do every action on it.
pub proof fn law_owner_may_act(db: Db, actor: i64, board_id: i64, action: Seq<char>)
    requires
        board_owner(db.boards@, board_id) == Some(actor),
    ensures
        may_act(db, actor, board_id, action),
{
}

/// Anyone but the owner needs a permission row for the action.
pub proof fn law_others_need_permission(db: Db, actor: i64, board_id: i64, action: Seq<char>)
    requires
        board_owner(db.boards@, board_id) != Some(actor),
        !has_permission(db.permissions@, board_id, actor, action),
    ensures
        !may_act(db, actor, board_id, action),
{
}

} // verus!
