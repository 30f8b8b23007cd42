//! Names that identify rows: no two users and no two boards share a name,
//! whatever commands run.
use vstd::prelude::*;

use crate::board::other_boards;
use crate::cli::{BoardCmd, Cmd, TaskCmd, UserCmd};
use crate::commands::{command_outcome, runs_outside};
use crate::error::CmdError;
use crate::store::{no_board_named, no_user_named, user_id_named, Board, Db, Outcome, User};
use crate::task_cmd::nonblank;
use crate::user::{not_named, with_user};

verus! {

/// The keys of the items of `s` are pairwise distinct.
pub open spec fn keys_distinct<A>(s: Seq<A>, key: spec_fn(A) -> Seq<char>) -> bool {
    forall|i: int, j: int|
        0 <= i < s.len() && 0 <= j < s.len() && i != j ==> #[trigger] key(s[i]) != #[trigger] key(
            s[j],
        )
}

/// The name of a user.
pub open spec fn user_name() -> spec_fn(User) -> Seq<char> {
    |u: User| u.name@
}

/// The name of a board.
pub open spec fn board_name() -> spec_fn(Board) -> Seq<char> {
    |b: Board| b.name@
}

/// No two users share a name and no two boards share a name.
pub open spec fn names_unique(db: Db) -> bool {
    &&& keys_distinct(db.users@, user_name())
    &&& keys_distinct(db.boards@, board_name())
}

/// Every item that a filter keeps is an item of the sequence.
proof fn lemma_filter_members<A>(s: Seq<A>, p: spec_fn(A) -> bool)
    ensures
        forall|i: int| 0 <= i < s.filter(p).len() ==> s.contains(#[trigger] s.filter(p)[i]),
    decreases s.len(),
{
    reveal(Seq::filter);
    if s.len() > 0 {
        let d = s.drop_last();
        lemma_filter_members(d, p);
        let f = s.filter(p);
        let g = d.filter(p);
        assert forall|i: int| 0 <= i < f.len() implies s.contains(#[trigger] f[i]) by {
            if i < g.len() {
                assert(f[i] == g[i]);
                assert(d.contains(g[i]));
                let k = choose|k: int| 0 <= k < d.len() && d[k] == g[i];
                assert(s[k] == d[k]);
            } else {
                assert(f[i] == s[s.len() - 1]);
            }
        }
    }
}

/// Filtering keeps keys distinct.
proof fn lemma_filter_keys_distinct<A>(s: Seq<A>, p: spec_fn(A) -> bool, key: spec_fn(A) -> Seq<char>)
    requires
        keys_distinct(s, key),
    ensures
        keys_distinct(s.filter(p), key),
    decreases s.len(),
{
    reveal(Seq::filter);
    if s.len() > 0 {
        let d = s.drop_last();
        assert forall|i: int, j: int|
            0 <= i < d.len() && 0 <= j < d.len() && i != j implies #[trigger] key(d[i]) != #[trigger] key(
            d[j],
        ) by {
            assert(d[i] == s[i] && d[j] == s[j]);
        }
        lemma_filter_keys_distinct(d, p, key);
        if p(s.last()) {
            let g = d.filter(p);
            lemma_filter_members(d, p);
            assert forall|i: int| 0 <= i < g.len() implies key(#[trigger] g[i]) != key(s.last()) by {
                assert(d.contains(g[i]));
                let k = choose|k: int| 0 <= k < d.len() && d[k] == g[i];
                assert(s[k] == d[k]);
                assert(s[s.len() - 1] == s.last());
            }
            lemma_push_keys_distinct(g, s.last(), key);
        }
    }
}

/// Adding an item whose key no item has keeps keys distinct.
proof fn lemma_push_keys_distinct<A>(s: Seq<A>, x: A, key: spec_fn(A) -> Seq<char>)
    requires
        keys_distinct(s, key),
        forall|i: int| 0 <= i < s.len() ==> key(#[trigger] s[i]) != key(x),
    ensures
        keys_distinct(s.push(x), key),
{
    let t = s.push(x);
    assert forall|i: int, j: int|
        0 <= i < t.len() && 0 <= j < t.len() && i != j implies #[trigger] key(t[i]) != #[trigger] key(
        t[j],
    ) by {
        if i < s.len() && j < s.len() {
            assert(t[i] == s[i] && t[j] == s[j]);
        } else if i < s.len() {
            assert(t[i] == s[i]);
        } else {
            assert(t[j] == s[j]);
        }
    }
}

/// Making sure that a name is a user keeps user names distinct.
proof fn lemma_with_user_distinct(users: Seq<User>, name: Option<String>)
    requires
        keys_distinct(users, user_name()),
    ensures
        keys_distinct(with_user(users, name), user_name()),
{
    if let Some(n) = name {
        if user_id_named(users, n@) is None {
            assert(no_user_named(users, n@));
            let x = User { id: (crate::store::max_id(crate::store::user_ids(users)) + 1) as i64, name: n };
            assert forall|i: int| 0 <= i < users.len() implies user_name()(#[trigger] users[i]) != user_name()(
                x,
            ) by {}
            lemma_push_keys_distinct(users, x, user_name());
        }
    }
}

/// Every command keeps user names and board names unique: a user is only
/// added under a name that no user has, a board only under a name that no
/// board has, and removing rows keeps the rest distinct.
pub proof fn law_names_stay_unique(old: Db, new: Db, cmd: Cmd, now: i64, r: Result<Outcome, CmdError>)
    requires
        names_unique(old),
        !runs_outside(cmd),
        command_outcome(old, new, cmd, now, r),
    ensures
        names_unique(new),
{
    if r is Ok && new != old {
        match cmd {
            Cmd::Init { user } => {
                lemma_with_user_distinct(old.users@, Some(user));
            },
            Cmd::Clear => {},
            Cmd::Board(b) => match b {
                BoardCmd::Create { name, .. } => {
                    assert(no_board_named(old.boards@, name@));
                    let x = new.boards@.last();
                    assert(new.boards@ == old.boards@.push(x));
                    assert forall|i: int| 0 <= i < old.boards@.len() implies board_name()(
                        #[trigger] old.boards@[i],
                    ) != board_name()(x) by {}
                    lemma_push_keys_distinct(old.boards@, x, board_name());
                },
                BoardCmd::Grant { target, .. } => {
                    lemma_with_user_distinct(old.users@, Some(target));
                },
                BoardCmd::Delete { board, .. } => {
                    let bid = crate::auth::selected_board(old, board@)->0;
                    lemma_filter_keys_distinct(old.boards@, other_boards(bid), board_name());
                },
                _ => {},
            },
            Cmd::Task(t) => match t {
                TaskCmd::Add { assignee, .. } => {
                    lemma_with_user_distinct(old.users@, assignee);
                },
                TaskCmd::Edit { assignee, .. } => {
                    lemma_with_user_distinct(old.users@, nonblank(assignee));
                },
                _ => {},
            },
            Cmd::User(u) => match u {
                UserCmd::Add { name, .. } => {
                    lemma_with_user_distinct(old.users@, Some(name));
                },
                UserCmd::Remove { name, .. } => {
                    lemma_filter_keys_distinct(old.users@, not_named(name@), user_name());
                },
                _ => {},
            },
        }
    }
}

} // verus!
