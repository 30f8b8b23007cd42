//! The shape that the tables keep under every command: each task id is used
//! once and the rows come in increasing order of id, every dependency row and every parent belongs to a task, the
//! dependencies of no board form a cycle, and every chain of parents ends.
use vstd::prelude::*;

use crate::cascade::{dep_survives, has_marked_parent, marked_id, unmarked_tasks};
use crate::graph::{acyclic, is_edge, is_path, lemma_path_sub, reaches};
use crate::store::{first_task_in_board, task_in_board, Db, TaskRow};
use crate::task::{
    ancestor, board_dep_edges, chain_ends, dep_check, dep_row_in, dep_rows, deps_of_others,
    law_set_dependencies_keeps_acyclic, lemma_first_task_exists, lemma_first_task_unique,
    parent_in_board, DepCheck, is_large, no_large_above, task_at, lemma_ancestor_none_stays,
    lemma_ancestor_cycle_never_ends,
};

verus! {

broadcast use vstd::seq_lib::group_filter_ensures;

/// No two task rows share an id.
pub open spec fn unique_task_ids(tasks: Seq<TaskRow>) -> bool {
    forall|i: int, j: int|
        0 <= i < tasks.len() && 0 <= j < tasks.len() && i != j ==> #[trigger] tasks[i].id
            != #[trigger] tasks[j].id
}

/// Some task row has id `id`.
pub open spec fn task_exists(tasks: Seq<TaskRow>, id: i64) -> bool {
    exists|i: int| 0 <= i < tasks.len() && #[trigger] tasks[i].id == id
}

/// Every dependency row belongs to a task.
pub open spec fn deps_have_tasks(db: Db) -> bool {
    forall|k: int|
        0 <= k < db.dependencies@.len() ==> task_exists(db.tasks@, #[trigger] db.dependencies@[k].task_id)
}

/// The dependencies of no board form a cycle.
pub open spec fn dependencies_acyclic(db: Db) -> bool {
    forall|b: i64| acyclic(#[trigger] board_dep_edges(db, b))
}

/// Every parent of a task is a task.
pub open spec fn parents_exist(tasks: Seq<TaskRow>) -> bool {
    forall|k: int|
        0 <= k < tasks.len() && (#[trigger] tasks[k]).parent_id is Some ==> task_exists(
            tasks,
            tasks[k].parent_id->0,
        )
}

/// Every chain of parents ends: no task is its own ancestor.
pub open spec fn parents_acyclic(db: Db) -> bool {
    forall|b: i64, x: i64| #[trigger] chain_ends(db, b, x)
}

/// The task rows come in increasing order of their ids.
#[verifier::opaque]
pub open spec fn ids_increasing(tasks: Seq<TaskRow>) -> bool {
    forall|i: int, j: int| 0 <= i < j < tasks.len() ==> #[trigger] tasks[i].id < #[trigger] tasks[j].id
}

/// The tables are well formed: task ids are used once, in increasing order
/// along the table, every dependency row belongs to a task, no board's
/// dependencies form a cycle, every parent is a task, and no task is its
/// own ancestor.
pub open spec fn well_formed(db: Db) -> bool {
    &&& unique_task_ids(db.tasks@)
    &&& ids_increasing(db.tasks@)
    &&& deps_have_tasks(db)
    &&& dependencies_acyclic(db)
    &&& parents_exist(db.tasks@)
    &&& parents_acyclic(db)
}

/// The part of [`well_formed`] about dependencies.
pub open spec fn dependencies_sound(db: Db) -> bool {
    &&& unique_task_ids(db.tasks@)
    &&& deps_have_tasks(db)
    &&& dependencies_acyclic(db)
}

/// The task rows of `new` have the ids and boards of those of `old`, in the
/// same places.
pub open spec fn same_ids(old: Seq<TaskRow>, new: Seq<TaskRow>) -> bool {
    &&& new.len() == old.len()
    &&& forall|k: int|
        0 <= k < old.len() ==> (#[trigger] new[k]).id == old[k].id && new[k].board_id == old[k].board_id
}

/// The task rows of `new` have the ids, boards and parents of those of
/// `old`, in the same places.
pub open spec fn same_links(old: Seq<TaskRow>, new: Seq<TaskRow>) -> bool {
    &&& new.len() == old.len()
    &&& forall|k: int|
        0 <= k < old.len() ==> (#[trigger] new[k]).id == old[k].id && new[k].board_id == old[k].board_id
            && new[k].parent_id == old[k].parent_id
}

/// A graph with fewer edges than one without cycles has none either.
pub proof fn lemma_acyclic_sub(g: spec_fn(i64, i64) -> bool, h: spec_fn(i64, i64) -> bool)
    requires
        acyclic(g),
        forall|x: i64, y: i64| #[trigger] h(x, y) ==> g(x, y),
    ensures
        acyclic(h),
{
    assert forall|x: i64, y: i64| #[trigger] is_edge(h, x, y) implies !reaches(h, y, x) by {
        assert(is_edge(g, x, y));
        if reaches(h, y, x) {
            let p = choose|p: Seq<i64>| #[trigger] is_path(h, p, y, x);
            lemma_path_sub(h, g, p, y, x);
            assert(reaches(g, y, x));
        }
    }
}

/// Tables that keep their task ids, boards and dependency rows keep their
/// dependencies sound.
pub proof fn lemma_dependencies_same_ids(old: Db, new: Db)
    requires
        dependencies_sound(old),
        same_ids(old.tasks@, new.tasks@),
        new.dependencies@ == old.dependencies@,
    ensures
        dependencies_sound(new),
{
    assert forall|i: int, j: int|
        0 <= i < new.tasks@.len() && 0 <= j < new.tasks@.len() && i != j implies #[trigger] new.tasks@[i].id
            != #[trigger] new.tasks@[j].id by {
        assert(old.tasks@[i].id != old.tasks@[j].id);
    }
    assert forall|k: int| 0 <= k < new.dependencies@.len() implies task_exists(
        new.tasks@,
        #[trigger] new.dependencies@[k].task_id,
    ) by {
        assert(task_exists(old.tasks@, old.dependencies@[k].task_id));
        let i = choose|i: int| 0 <= i < old.tasks@.len() && #[trigger] old.tasks@[i].id == old.dependencies@[k].task_id;
        assert(new.tasks@[i].id == old.tasks@[i].id);
    }
    assert forall|b: i64| acyclic(#[trigger] board_dep_edges(new, b)) by {
        assert(acyclic(board_dep_edges(old, b)));
        assert forall|x: i64, y: i64| #[trigger] board_dep_edges(new, b)(x, y) implies board_dep_edges(old, b)(x, y) by {
            let k = choose|k: int|
                0 <= k < new.dependencies@.len() && k < new.dependencies@.len() && #[trigger] new.dependencies@[k].task_id == x
                    && new.dependencies@[k].depends_on == y && task_in_board(new.tasks@, b, x);
            let j = choose|j: int| 0 <= j < new.tasks@.len() && new.tasks@[j].id == x && new.tasks@[j].board_id == b;
            assert(new.tasks@[j].id == old.tasks@[j].id);
            assert(task_in_board(old.tasks@, b, x));
            assert(dep_row_in(old, b, old.dependencies@.len() as int, x, y));
        }
        lemma_acyclic_sub(board_dep_edges(old, b), board_dep_edges(new, b));
    }
}

/// Tables that keep their task ids, boards and parents keep their parents
/// sound.
pub proof fn lemma_parents_same_links(old: Db, new: Db)
    requires
        parents_exist(old.tasks@),
        parents_acyclic(old),
        same_links(old.tasks@, new.tasks@),
    ensures
        parents_exist(new.tasks@),
        parents_acyclic(new),
{
    assert forall|k: int| 0 <= k < new.tasks@.len() && (#[trigger] new.tasks@[k]).parent_id is Some implies task_exists(
        new.tasks@,
        new.tasks@[k].parent_id->0,
    ) by {
        assert(old.tasks@[k].parent_id == new.tasks@[k].parent_id);
        let i = choose|i: int| 0 <= i < old.tasks@.len() && #[trigger] old.tasks@[i].id == old.tasks@[k].parent_id->0;
        assert(new.tasks@[i].id == old.tasks@[i].id);
    }
    assert forall|b: i64, x: i64| #[trigger] chain_ends(new, b, x) by {
        assert forall|c: i64| Some(c) != None::<i64> implies #[trigger] parent_in_board(new, b, c) == parent_in_board(old, b, c) by {
            lemma_links_parents(old, new, b, c);
        }
        assert(chain_ends(old, b, x));
        let m = choose|m: nat| #[trigger] ancestor(old, b, x, m) is None;
        lemma_ancestor_agree(old, new, b, None, x, m);
        assert(ancestor(new, b, x, m) is None);
    }
}

/// Tables that keep their task ids, boards, parents and dependency rows
/// stay well formed.
pub proof fn lemma_well_formed_same_links(old: Db, new: Db)
    requires
        well_formed(old),
        same_links(old.tasks@, new.tasks@),
        new.dependencies@ == old.dependencies@,
    ensures
        well_formed(new),
{
    lemma_dependencies_same_ids(old, new);
    lemma_parents_same_links(old, new);
    reveal(ids_increasing);
    assert forall|i: int, j: int| 0 <= i < j < new.tasks@.len() implies #[trigger] new.tasks@[i].id
        < #[trigger] new.tasks@[j].id by {
        assert(old.tasks@[i].id < old.tasks@[j].id);
    }
}

/// Tables whose task rows and dependency rows stay as they were stay well
/// formed.
pub proof fn lemma_well_formed_kept(old: Db, new: Db)
    requires
        well_formed(old),
        new.tasks@ == old.tasks@,
        new.dependencies@ == old.dependencies@,
    ensures
        well_formed(new),
{
    lemma_well_formed_same_links(old, new);
}

/// Setting the dependencies of a task of a board, when the check accepts
/// them, keeps the tables well formed.
pub proof fn lemma_well_formed_set_dependencies(old: Db, new: Db, board_id: i64, task_id: i64, nd: Seq<i64>)
    requires
        well_formed(old),
        task_in_board(old.tasks@, board_id, task_id),
        dep_check(old, board_id, task_id, nd) is Fine,
        new.tasks@ == old.tasks@,
        new.dependencies@ == old.dependencies@.filter(deps_of_others(task_id)) + dep_rows(task_id, nd),
    ensures
        well_formed(new),
{
    lemma_parents_same_links(old, new);
    let kept = old.dependencies@.filter(deps_of_others(task_id));
    let tj = choose|j: int| 0 <= j < old.tasks@.len() && old.tasks@[j].id == task_id && old.tasks@[j].board_id == board_id;
    assert forall|k: int| 0 <= k < new.dependencies@.len() implies task_exists(
        new.tasks@,
        #[trigger] new.dependencies@[k].task_id,
    ) by {
        if k < kept.len() {
            assert(new.dependencies@[k] == kept[k]);
            assert(kept.contains(kept[k]));
            old.dependencies@.lemma_filter_contains_rev(deps_of_others(task_id), kept[k]);
            let m = choose|m: int| 0 <= m < old.dependencies@.len() && old.dependencies@[m] == kept[k];
            assert(task_exists(old.tasks@, old.dependencies@[m].task_id));
        } else {
            assert(new.dependencies@[k] == dep_rows(task_id, nd)[k - kept.len()]);
            assert(old.tasks@[tj].id == task_id);
        }
    }
    assert forall|b: i64| acyclic(#[trigger] board_dep_edges(new, b)) by {
        if b == board_id {
            law_set_dependencies_keeps_acyclic(old, new, board_id, task_id, nd);
        } else {
            assert(acyclic(board_dep_edges(old, b)));
            assert forall|x: i64, y: i64| #[trigger] board_dep_edges(new, b)(x, y) implies board_dep_edges(old, b)(x, y) by {
                let k = choose|k: int|
                    0 <= k < new.dependencies@.len() && k < new.dependencies@.len() && #[trigger] new.dependencies@[k].task_id == x
                        && new.dependencies@[k].depends_on == y && task_in_board(new.tasks@, b, x);
                let j = choose|j: int| 0 <= j < new.tasks@.len() && new.tasks@[j].id == x && new.tasks@[j].board_id == b;
                if x == task_id {
                    assert(old.tasks@[j].id == old.tasks@[tj].id);
                    assert(j != tj);
                }
                assert(x != task_id);
                if k < kept.len() {
                    assert(new.dependencies@[k] == kept[k]);
                    assert(kept.contains(kept[k]));
                    old.dependencies@.lemma_filter_contains_rev(deps_of_others(task_id), kept[k]);
                    let m = choose|m: int| 0 <= m < old.dependencies@.len() && old.dependencies@[m] == kept[k];
                    assert(dep_row_in(old, b, old.dependencies@.len() as int, x, y));
                } else {
                    assert(new.dependencies@[k] == dep_rows(task_id, nd)[k - kept.len()]);
                }
            }
            lemma_acyclic_sub(board_dep_edges(old, b), board_dep_edges(new, b));
        }
    }
}

/// Adding a task row with an id that no row has keeps the tables well
/// formed.
pub proof fn lemma_well_formed_insert(old: Db, new: Db, row: TaskRow)
    requires
        well_formed(old),
        forall|k: int| 0 <= k < old.tasks@.len() ==> old.tasks@[k].id < row.id,
        row.parent_id is Some ==> task_exists(old.tasks@, row.parent_id->0),
        new.tasks@ == old.tasks@.push(row),
        new.dependencies@ == old.dependencies@,
    ensures
        well_formed(new),
{
    lemma_parents_insert(old, new, row);
    let n = old.tasks@.len();
    reveal(ids_increasing);
    assert forall|i: int, j: int| 0 <= i < j < new.tasks@.len() implies #[trigger] new.tasks@[i].id
        < #[trigger] new.tasks@[j].id by {
        if j < n {
            assert(old.tasks@[i].id < old.tasks@[j].id);
        } else {
            assert(old.tasks@[i].id < row.id);
        }
    }
    assert forall|i: int, j: int|
        0 <= i < new.tasks@.len() && 0 <= j < new.tasks@.len() && i != j implies #[trigger] new.tasks@[i].id
            != #[trigger] new.tasks@[j].id by {
        if i < n && j < n {
            assert(old.tasks@[i].id != old.tasks@[j].id);
        } else if i < n {
            assert(old.tasks@[i].id != row.id);
        } else {
            assert(old.tasks@[j].id != row.id);
        }
    }
    assert forall|k: int| 0 <= k < new.dependencies@.len() implies task_exists(
        new.tasks@,
        #[trigger] new.dependencies@[k].task_id,
    ) by {
        assert(task_exists(old.tasks@, old.dependencies@[k].task_id));
        let i = choose|i: int| 0 <= i < old.tasks@.len() && #[trigger] old.tasks@[i].id == old.dependencies@[k].task_id;
        assert(new.tasks@[i] == old.tasks@[i]);
    }
    assert forall|b: i64| acyclic(#[trigger] board_dep_edges(new, b)) by {
        assert(acyclic(board_dep_edges(old, b)));
        assert forall|x: i64, y: i64| #[trigger] board_dep_edges(new, b)(x, y) implies board_dep_edges(old, b)(x, y) by {
            let k = choose|k: int|
                0 <= k < new.dependencies@.len() && k < new.dependencies@.len() && #[trigger] new.dependencies@[k].task_id == x
                    && new.dependencies@[k].depends_on == y && task_in_board(new.tasks@, b, x);
            let j = choose|j: int| 0 <= j < new.tasks@.len() && new.tasks@[j].id == x && new.tasks@[j].board_id == b;
            assert(task_exists(old.tasks@, old.dependencies@[k].task_id));
            let i = choose|i: int| 0 <= i < old.tasks@.len() && #[trigger] old.tasks@[i].id == old.dependencies@[k].task_id;
            assert(j < n) by {
                if j == n {
                    assert(old.tasks@[i].id != row.id);
                }
            }
            assert(old.tasks@[j] == new.tasks@[j]);
            assert(task_in_board(old.tasks@, b, x));
            assert(dep_row_in(old, b, old.dependencies@.len() as int, x, y));
        }
        lemma_acyclic_sub(board_dep_edges(old, b), board_dep_edges(new, b));
    }
}

/// The rows kept at unmarked places come from unmarked places, and keep
/// ids apart when the table did.
proof fn lemma_unmarked_rows(tasks: Seq<TaskRow>, marks: Seq<bool>)
    requires
        marks.len() >= tasks.len(),
    ensures
        forall|k: int|
            0 <= k < unmarked_tasks(tasks, marks).len() ==> exists|j: int|
                0 <= j < tasks.len() && !marks[j] && tasks[j] == #[trigger] unmarked_tasks(tasks, marks)[k],
        unique_task_ids(tasks) ==> unique_task_ids(unmarked_tasks(tasks, marks)),
        ids_increasing(tasks) ==> ids_increasing(unmarked_tasks(tasks, marks)),
    decreases tasks.len(),
{
    reveal(ids_increasing);
    let u = unmarked_tasks(tasks, marks);
    if tasks.len() > 0 {
        let d = tasks.drop_last();
        lemma_unmarked_rows(d, marks);
        let ud = unmarked_tasks(d, marks);
        if ids_increasing(tasks) {
            assert(ids_increasing(d)) by {
                assert forall|i: int, j: int| 0 <= i < j < d.len() implies #[trigger] d[i].id < #[trigger] d[j].id by {
                    assert(tasks[i].id < tasks[j].id);
                }
            }
            assert forall|i: int, j: int| 0 <= i < j < u.len() implies #[trigger] u[i].id < #[trigger] u[j].id by {
                if j < ud.len() {
                    assert(u[i] == ud[i] && u[j] == ud[j]);
                } else {
                    let a = choose|a: int| 0 <= a < d.len() && !marks[a] && d[a] == ud[i];
                    assert(u[i] == ud[i]);
                    assert(tasks[a].id < tasks[tasks.len() - 1].id);
                }
            }
        }
        assert forall|k: int| 0 <= k < u.len() implies exists|j: int|
            0 <= j < tasks.len() && !marks[j] && tasks[j] == #[trigger] u[k] by {
            if k < ud.len() {
                assert(u[k] == ud[k]);
                let j = choose|j: int| 0 <= j < d.len() && !marks[j] && d[j] == ud[k];
                assert(tasks[j] == d[j]);
            } else {
                assert(tasks[tasks.len() - 1] == u[k]);
            }
        }
        if unique_task_ids(tasks) {
            assert(unique_task_ids(d)) by {
                assert forall|i: int, j: int| 0 <= i < d.len() && 0 <= j < d.len() && i != j implies #[trigger] d[i].id
                    != #[trigger] d[j].id by {
                    assert(tasks[i].id != tasks[j].id);
                }
            }
            assert forall|i: int, j: int| 0 <= i < u.len() && 0 <= j < u.len() && i != j implies #[trigger] u[i].id
                != #[trigger] u[j].id by {
                if i < ud.len() && j < ud.len() {
                    assert(u[i] == ud[i] && u[j] == ud[j]);
                } else if i < ud.len() {
                    let a = choose|a: int| 0 <= a < d.len() && !marks[a] && d[a] == ud[i];
                    assert(u[i] == ud[i]);
                    assert(tasks[a].id != tasks[tasks.len() - 1].id);
                } else {
                    let a = choose|a: int| 0 <= a < d.len() && !marks[a] && d[a] == ud[j];
                    assert(u[j] == ud[j]);
                    assert(tasks[a].id != tasks[tasks.len() - 1].id);
                }
            }
        }
    }
}

/// Removing the marked task rows, with the dependency rows that touch
/// them, keeps the tables well formed.
pub proof fn lemma_well_formed_remove_marked(old: Db, new: Db, marks: Seq<bool>)
    requires
        well_formed(old),
        marks.len() == old.tasks@.len(),
        new.tasks@ == unmarked_tasks(old.tasks@, marks),
        new.dependencies@ == old.dependencies@.filter(dep_survives(old.tasks@, marks)),
        forall|i: int| 0 <= i < old.tasks@.len() && has_marked_parent(old.tasks@, marks, i) ==> marks[i],
    ensures
        well_formed(new),
{
    lemma_parents_remove(old, new, marks);
    lemma_unmarked_rows(old.tasks@, marks);
    crate::board::lemma_unmarked_tasks_facts(old.tasks@, marks);
    let p = dep_survives(old.tasks@, marks);
    assert forall|k: int| 0 <= k < new.dependencies@.len() implies task_exists(
        new.tasks@,
        #[trigger] new.dependencies@[k].task_id,
    ) by {
        let d = new.dependencies@[k];
        assert(new.dependencies@.contains(d));
        old.dependencies@.lemma_filter_contains_rev(p, d);
        assert(p(d));
        let m = choose|m: int| 0 <= m < old.dependencies@.len() && old.dependencies@[m] == d;
        assert(task_exists(old.tasks@, old.dependencies@[m].task_id));
        let i = choose|i: int| 0 <= i < old.tasks@.len() && #[trigger] old.tasks@[i].id == d.task_id;
        assert(!marks[i]) by {
            if marks[i] {
                assert(marked_id(old.tasks@, marks, d.task_id));
            }
        }
        assert(new.tasks@.contains(old.tasks@[i]));
        let q = choose|q: int| 0 <= q < new.tasks@.len() && new.tasks@[q] == old.tasks@[i];
        assert(new.tasks@[q].id == d.task_id);
    }
    assert forall|b: i64| acyclic(#[trigger] board_dep_edges(new, b)) by {
        assert(acyclic(board_dep_edges(old, b)));
        assert forall|x: i64, y: i64| #[trigger] board_dep_edges(new, b)(x, y) implies board_dep_edges(old, b)(x, y) by {
            let k = choose|k: int|
                0 <= k < new.dependencies@.len() && k < new.dependencies@.len() && #[trigger] new.dependencies@[k].task_id == x
                    && new.dependencies@[k].depends_on == y && task_in_board(new.tasks@, b, x);
            let d = new.dependencies@[k];
            assert(new.dependencies@.contains(d));
            old.dependencies@.lemma_filter_contains_rev(p, d);
            let m = choose|m: int| 0 <= m < old.dependencies@.len() && old.dependencies@[m] == d;
            let j = choose|j: int| 0 <= j < new.tasks@.len() && new.tasks@[j].id == x && new.tasks@[j].board_id == b;
            let a = choose|a: int| 0 <= a < old.tasks@.len() && !marks[a] && old.tasks@[a] == #[trigger] new.tasks@[j];
            assert(task_in_board(old.tasks@, b, x));
            assert(dep_row_in(old, b, old.dependencies@.len() as int, x, y));
        }
        lemma_acyclic_sub(board_dep_edges(old, b), board_dep_edges(new, b));
    }
}

/// Empty tables are well formed.
pub proof fn lemma_empty_well_formed(db: Db)
    requires
        db.tasks@.len() == 0,
        db.dependencies@.len() == 0,
    ensures
        well_formed(db),
{
    reveal(ids_increasing);
    assert forall|b: i64, x: i64| #[trigger] chain_ends(db, b, x) by {
        assert(ancestor(db, b, x, 0) == Some(x));
        assert(ancestor(db, b, x, 1) is None);
    }
    assert forall|b: i64| acyclic(#[trigger] board_dep_edges(db, b)) by {
        assert forall|x: i64, y: i64| #[trigger] is_edge(board_dep_edges(db, b), x, y) implies !reaches(board_dep_edges(db, b), y, x) by {
        }
    }
}

/// On board `b`, `new` gives every task other than `t` the parent that
/// `old` gives it.
pub open spec fn parents_agree_except(old: Db, new: Db, b: i64, t: Option<i64>) -> bool {
    forall|c: i64| Some(c) != t ==> #[trigger] parent_in_board(new, b, c) == parent_in_board(old, b, c)
}

/// Two tables that agree on the parents of the tasks a chain passes give
/// the same chain.
proof fn lemma_ancestor_agree(old: Db, new: Db, b: i64, t: Option<i64>, x: i64, k: nat)
    requires
        parents_agree_except(old, new, b, t),
        forall|j: nat| j < k ==> (#[trigger] ancestor(old, b, x, j)) is None || ancestor(old, b, x, j) != t,
    ensures
        ancestor(new, b, x, k) == ancestor(old, b, x, k),
    decreases k,
{
    if k > 0 {
        let p = (k - 1) as nat;
        lemma_ancestor_agree(old, new, b, t, x, p);
        if let Some(c) = ancestor(old, b, x, p) {
            assert(Some(c) != t);
            assert(parent_in_board(new, b, c) == parent_in_board(old, b, c));
        }
    }
}

/// A chain that passes `y` goes on as the chain from `y`.
proof fn lemma_ancestor_from(db: Db, b: i64, x: i64, s: nat, y: i64, j: nat)
    requires
        ancestor(db, b, x, s) == Some(y),
    ensures
        ancestor(db, b, x, s + j) == ancestor(db, b, y, j),
    decreases j,
{
    if j > 0 {
        lemma_ancestor_from(db, b, x, s, y, (j - 1) as nat);
        assert(s + j - 1 == s + (j - 1) as nat);
    }
}

/// A chain that passes a task whose chain ends, ends.
proof fn lemma_chain_ends_through(db: Db, b: i64, x: i64, s: nat, y: i64)
    requires
        ancestor(db, b, x, s) == Some(y),
        chain_ends(db, b, y),
    ensures
        chain_ends(db, b, x),
{
    let m = choose|m: nat| #[trigger] ancestor(db, b, y, m) is None;
    lemma_ancestor_from(db, b, x, s, y, m);
    assert(ancestor(db, b, x, s + m) is None);
}

/// When `new` either drops the parent of a task or keeps the one `old`
/// gives, every chain of `new` stops where that of `old` does, or sooner.
proof fn lemma_ancestor_prefix(old: Db, new: Db, b: i64, x: i64, k: nat)
    requires
        forall|c: i64| #[trigger] parent_in_board(new, b, c) is None || parent_in_board(new, b, c)
            == parent_in_board(old, b, c),
    ensures
        ancestor(new, b, x, k) is None || ancestor(new, b, x, k) == ancestor(old, b, x, k),
    decreases k,
{
    if k > 0 {
        let p = (k - 1) as nat;
        lemma_ancestor_prefix(old, new, b, x, p);
        if let Some(c) = ancestor(new, b, x, p) {
            assert(parent_in_board(new, b, c) is None || parent_in_board(new, b, c) == parent_in_board(old, b, c));
        }
    }
}

/// Tables whose task rows keep their ids, boards and parents give every
/// task the same parent.
pub proof fn lemma_links_parents(old: Db, new: Db, b: i64, c: i64)
    requires
        same_links(old.tasks@, new.tasks@),
    ensures
        parent_in_board(new, b, c) == parent_in_board(old, b, c),
{
    if task_in_board(old.tasks@, b, c) {
        let j = choose|j: int| 0 <= j < old.tasks@.len() && old.tasks@[j].id == c && old.tasks@[j].board_id == b;
        assert(new.tasks@[j].id == c);
    }
    if task_in_board(new.tasks@, b, c) {
        let j = choose|j: int| 0 <= j < new.tasks@.len() && new.tasks@[j].id == c && new.tasks@[j].board_id == b;
        assert(new.tasks@[j].id == old.tasks@[j].id);
    }
    if task_in_board(old.tasks@, b, c) {
        lemma_first_task_exists(old.tasks@, b, c);
        let i = choose|i: int| first_task_in_board(old.tasks@, b, c, i);
        assert forall|j: int| 0 <= j < i implies !(new.tasks@[j].id == c && new.tasks@[j].board_id == b) by {
            assert(new.tasks@[j].id == old.tasks@[j].id);
        }
        assert(new.tasks@[i].id == old.tasks@[i].id);
        assert(first_task_in_board(new.tasks@, b, c, i));
        let i2 = choose|i: int| first_task_in_board(new.tasks@, b, c, i);
        lemma_first_task_unique(new.tasks@, b, c, i, i2);
    }
}

/// The parent of a task whose only row is at `i`.
proof fn lemma_parent_at(db: Db, b: i64, c: i64, i: int)
    requires
        0 <= i < db.tasks@.len(),
        db.tasks@[i].id == c,
        db.tasks@[i].board_id == b,
        forall|j: int| 0 <= j < db.tasks@.len() && j != i ==> db.tasks@[j].id != c,
    ensures
        parent_in_board(db, b, c) == db.tasks@[i].parent_id,
{
    assert(first_task_in_board(db.tasks@, b, c, i));
    let f = choose|f: int| first_task_in_board(db.tasks@, b, c, f);
    lemma_first_task_unique(db.tasks@, b, c, i, f);
}

/// Rows that hold the same task with the same board, and only those, give
/// it the same parent.
proof fn lemma_same_rows_parent(old: Db, new: Db, b: i64, c: i64)
    requires
        new.tasks@.len() >= old.tasks@.len(),
        forall|j: int| 0 <= j < old.tasks@.len() && (#[trigger] old.tasks@[j]).id == c ==> new.tasks@[j] == old.tasks@[j],
        forall|j: int| 0 <= j < new.tasks@.len() && (#[trigger] new.tasks@[j]).id == c ==> j < old.tasks@.len()
            && new.tasks@[j] == old.tasks@[j],
    ensures
        parent_in_board(new, b, c) == parent_in_board(old, b, c),
{
    if task_in_board(old.tasks@, b, c) {
        let j = choose|j: int| 0 <= j < old.tasks@.len() && old.tasks@[j].id == c && old.tasks@[j].board_id == b;
        assert(new.tasks@[j] == old.tasks@[j]);
    }
    if task_in_board(new.tasks@, b, c) {
        let j = choose|j: int| 0 <= j < new.tasks@.len() && new.tasks@[j].id == c && new.tasks@[j].board_id == b;
        assert(new.tasks@[j] == old.tasks@[j]);
    }
    if task_in_board(old.tasks@, b, c) {
        lemma_first_task_exists(old.tasks@, b, c);
        let i = choose|i: int| first_task_in_board(old.tasks@, b, c, i);
        assert forall|j: int| 0 <= j < i implies !(new.tasks@[j].id == c && new.tasks@[j].board_id == b) by {
            if new.tasks@[j].id == c {
                assert(new.tasks@[j] == old.tasks@[j]);
            }
        }
        assert(new.tasks@[i] == old.tasks@[i]);
        assert(first_task_in_board(new.tasks@, b, c, i));
        let i2 = choose|i: int| first_task_in_board(new.tasks@, b, c, i);
        lemma_first_task_unique(new.tasks@, b, c, i, i2);
    }
}

/// The parent that a table gives a task is a task, when parents exist.
proof fn lemma_parent_is_task(db: Db, b: i64, c: i64)
    requires
        parents_exist(db.tasks@),
    ensures
        parent_in_board(db, b, c) is Some ==> task_exists(db.tasks@, parent_in_board(db, b, c)->0),
{
    if task_in_board(db.tasks@, b, c) {
        lemma_first_task_exists(db.tasks@, b, c);
        let i = choose|i: int| first_task_in_board(db.tasks@, b, c, i);
        if db.tasks@[i].parent_id is Some {
            assert(task_exists(db.tasks@, db.tasks@[i].parent_id->0));
        }
    }
}

/// Adding a row with a new id keeps every parent a task and every chain
/// finite.
proof fn lemma_parents_insert(old: Db, new: Db, row: TaskRow)
    requires
        unique_task_ids(old.tasks@),
        parents_exist(old.tasks@),
        parents_acyclic(old),
        forall|k: int| 0 <= k < old.tasks@.len() ==> old.tasks@[k].id != row.id,
        row.parent_id is Some ==> task_exists(old.tasks@, row.parent_id->0),
        new.tasks@ == old.tasks@.push(row),
    ensures
        parents_exist(new.tasks@),
        parents_acyclic(new),
{
    let n = row.id;
    let len = old.tasks@.len() as int;
    assert forall|k: int| 0 <= k < new.tasks@.len() && (#[trigger] new.tasks@[k]).parent_id is Some implies task_exists(
        new.tasks@,
        new.tasks@[k].parent_id->0,
    ) by {
        let p = new.tasks@[k].parent_id->0;
        if k < len {
            assert(new.tasks@[k] == old.tasks@[k]);
        }
        assert(task_exists(old.tasks@, p));
        let i = choose|i: int| 0 <= i < old.tasks@.len() && #[trigger] old.tasks@[i].id == p;
        assert(new.tasks@[i] == old.tasks@[i]);
    }
    assert forall|b: i64, x: i64| #[trigger] chain_ends(new, b, x) by {
        assert forall|c: i64| Some(c) != Some(n) implies #[trigger] parent_in_board(new, b, c) == parent_in_board(old, b, c) by {
            assert forall|j: int| 0 <= j < new.tasks@.len() && (#[trigger] new.tasks@[j]).id == c implies j < old.tasks@.len()
                && new.tasks@[j] == old.tasks@[j] by {
                if j == len {
                    assert(new.tasks@[j] == row);
                }
            }
            lemma_same_rows_parent(old, new, b, c);
        }
        assert forall|c: i64| #[trigger] parent_in_board(old, b, c) != Some(n) by {
            lemma_parent_is_task(old, b, c);
            if parent_in_board(old, b, c) == Some(n) {
                let i = choose|i: int| 0 <= i < old.tasks@.len() && #[trigger] old.tasks@[i].id == n;
            }
        }
        assert forall|y: i64| y != n implies #[trigger] chain_ends(new, b, y) by {
            assert(chain_ends(old, b, y));
            let m = choose|m: nat| #[trigger] ancestor(old, b, y, m) is None;
            assert forall|j: nat| j < m implies (#[trigger] ancestor(old, b, y, j)) is None || ancestor(old, b, y, j) != Some(n) by {
                if j > 0 {
                    if let Some(c) = ancestor(old, b, y, (j - 1) as nat) {
                        assert(parent_in_board(old, b, c) != Some(n));
                    }
                }
            }
            lemma_ancestor_agree(old, new, b, Some(n), y, m);
        }
        if x == n {
            if b == row.board_id {
                lemma_parent_at(new, b, n, len);
            }
            assert(ancestor(new, b, n, 0) == Some(n));
            assert(ancestor(new, b, n, 1) == parent_in_board(new, b, n));
            if let Some(p) = parent_in_board(new, b, n) {
                assert(p == row.parent_id->0);
                let i = choose|i: int| 0 <= i < old.tasks@.len() && #[trigger] old.tasks@[i].id == p;
                assert(p != n);
                assert(chain_ends(new, b, p));
                lemma_chain_ends_through(new, b, n, 1, p);
            } else {
                assert(ancestor(new, b, n, 1) is None);
            }
        }
    }
}

/// Removing rows together with every row below them keeps every parent a
/// task and every chain finite.
proof fn lemma_parents_remove(old: Db, new: Db, marks: Seq<bool>)
    requires
        unique_task_ids(old.tasks@),
        parents_exist(old.tasks@),
        parents_acyclic(old),
        marks.len() == old.tasks@.len(),
        new.tasks@ == unmarked_tasks(old.tasks@, marks),
        forall|i: int| 0 <= i < old.tasks@.len() && has_marked_parent(old.tasks@, marks, i) ==> marks[i],
    ensures
        parents_exist(new.tasks@),
        parents_acyclic(new),
{
    lemma_unmarked_rows(old.tasks@, marks);
    crate::board::lemma_unmarked_tasks_facts(old.tasks@, marks);
    assert forall|k: int| 0 <= k < new.tasks@.len() && (#[trigger] new.tasks@[k]).parent_id is Some implies task_exists(
        new.tasks@,
        new.tasks@[k].parent_id->0,
    ) by {
        let a = choose|a: int| 0 <= a < old.tasks@.len() && !marks[a] && old.tasks@[a] == #[trigger] new.tasks@[k];
        let p = new.tasks@[k].parent_id->0;
        assert(task_exists(old.tasks@, p));
        let q = choose|q: int| 0 <= q < old.tasks@.len() && #[trigger] old.tasks@[q].id == p;
        assert(!marks[q]) by {
            if marks[q] {
                assert(marked_id(old.tasks@, marks, p));
                assert(has_marked_parent(old.tasks@, marks, a));
            }
        }
        assert(new.tasks@.contains(old.tasks@[q]));
        let r = choose|r: int| 0 <= r < new.tasks@.len() && new.tasks@[r] == old.tasks@[q];
        assert(new.tasks@[r].id == p);
    }
    assert forall|b: i64, x: i64| #[trigger] chain_ends(new, b, x) by {
        assert forall|c: i64| #[trigger] parent_in_board(new, b, c) is None || parent_in_board(new, b, c)
            == parent_in_board(old, b, c) by {
            if task_in_board(new.tasks@, b, c) {
                let k = choose|k: int| 0 <= k < new.tasks@.len() && new.tasks@[k].id == c && new.tasks@[k].board_id == b;
                assert forall|j: int| 0 <= j < new.tasks@.len() && j != k implies new.tasks@[j].id != c by {
                    assert(new.tasks@[j].id != new.tasks@[k].id);
                }
                lemma_parent_at(new, b, c, k);
                let a = choose|a: int| 0 <= a < old.tasks@.len() && !marks[a] && old.tasks@[a] == #[trigger] new.tasks@[k];
                assert forall|j: int| 0 <= j < old.tasks@.len() && j != a implies old.tasks@[j].id != c by {
                    assert(old.tasks@[j].id != old.tasks@[a].id);
                }
                lemma_parent_at(old, b, c, a);
            }
        }
        assert(chain_ends(old, b, x));
        let m = choose|m: nat| #[trigger] ancestor(old, b, x, m) is None;
        lemma_ancestor_prefix(old, new, b, x, m);
        assert(ancestor(new, b, x, m) is None);
    }
}

/// The first place where a chain passes `t`.
proof fn lemma_first_pass(db: Db, b: i64, x: i64, t: i64, k: nat) -> (f: nat)
    requires
        ancestor(db, b, x, k) == Some(t),
    ensures
        f <= k,
        ancestor(db, b, x, f) == Some(t),
        forall|j: nat| j < f ==> ancestor(db, b, x, j) != Some(t),
    decreases k,
{
    if exists|j: nat| j < k && ancestor(db, b, x, j) == Some(t) {
        let j = choose|j: nat| j < k && ancestor(db, b, x, j) == Some(t);
        lemma_first_pass(db, b, x, t, j)
    } else {
        k
    }
}

/// Giving task `t` a new parent keeps the tables well formed when the new
/// parent is a task of the board whose chain ends without passing `t`, or
/// when the task loses its parent.
pub proof fn lemma_well_formed_reparent(old: Db, new: Db, i: int, row: TaskRow)
    requires
        well_formed(old),
        0 <= i < old.tasks@.len(),
        row.id == old.tasks@[i].id,
        row.board_id == old.tasks@[i].board_id,
        new.tasks@ == old.tasks@.update(i, row),
        new.dependencies@ == old.dependencies@,
        row.parent_id is Some ==> task_in_board(old.tasks@, row.board_id, row.parent_id->0)
            && crate::task::chain_ends_before(old, row.board_id, row.parent_id->0, row.id),
    ensures
        well_formed(new),
{
    reveal(ids_increasing);
    assert forall|a: int, c: int| 0 <= a < c < new.tasks@.len() implies #[trigger] new.tasks@[a].id
        < #[trigger] new.tasks@[c].id by {
        assert(old.tasks@[a].id < old.tasks@[c].id);
    }
    let t = row.id;
    let bt = row.board_id;
    assert(same_ids(old.tasks@, new.tasks@));
    lemma_dependencies_same_ids(old, new);
    assert forall|k: int| 0 <= k < new.tasks@.len() && (#[trigger] new.tasks@[k]).parent_id is Some implies task_exists(
        new.tasks@,
        new.tasks@[k].parent_id->0,
    ) by {
        let p = new.tasks@[k].parent_id->0;
        if k == i {
            let j = choose|j: int| 0 <= j < old.tasks@.len() && old.tasks@[j].id == p && old.tasks@[j].board_id == bt;
            assert(new.tasks@[j].id == p);
        } else {
            assert(new.tasks@[k] == old.tasks@[k]);
            let q = choose|q: int| 0 <= q < old.tasks@.len() && #[trigger] old.tasks@[q].id == p;
            assert(new.tasks@[q].id == old.tasks@[q].id);
        }
    }
    assert forall|j: int| 0 <= j < old.tasks@.len() && j != i implies old.tasks@[j].id != t by {
        assert(old.tasks@[j].id != old.tasks@[i].id);
    }
    assert forall|b: i64, x: i64| #[trigger] chain_ends(new, b, x) by {
        assert forall|c: i64| Some(c) != Some(t) implies #[trigger] parent_in_board(new, b, c) == parent_in_board(old, b, c) by {
            assert forall|j: int| 0 <= j < old.tasks@.len() && (#[trigger] old.tasks@[j]).id == c implies new.tasks@[j] == old.tasks@[j] by {}
            assert forall|j: int| 0 <= j < new.tasks@.len() && (#[trigger] new.tasks@[j]).id == c implies j < old.tasks@.len()
                && new.tasks@[j] == old.tasks@[j] by {}
            lemma_same_rows_parent(old, new, b, c);
        }
        if b != bt {
            assert(parent_in_board(new, b, t) == parent_in_board(old, b, t)) by {
                assert(!task_in_board(new.tasks@, b, t)) by {
                    if task_in_board(new.tasks@, b, t) {
                        let j = choose|j: int| 0 <= j < new.tasks@.len() && new.tasks@[j].id == t && new.tasks@[j].board_id == b;
                        if j != i {
                            assert(new.tasks@[j] == old.tasks@[j]);
                        }
                    }
                }
                assert(!task_in_board(old.tasks@, b, t)) by {
                    if task_in_board(old.tasks@, b, t) {
                        let j = choose|j: int| 0 <= j < old.tasks@.len() && old.tasks@[j].id == t && old.tasks@[j].board_id == b;
                    }
                }
            }
            assert(parents_agree_except(old, new, b, None));
            assert(chain_ends(old, b, x));
            let m = choose|m: nat| #[trigger] ancestor(old, b, x, m) is None;
            lemma_ancestor_agree(old, new, b, None, x, m);
            assert(ancestor(new, b, x, m) is None);
        } else {
            assert(parents_agree_except(old, new, b, Some(t)));
            assert forall|y: i64| (forall|j: nat| #[trigger] ancestor(old, b, y, j) != Some(t)) implies chain_ends(new, b, y) by {
                assert(chain_ends(old, b, y));
                let m = choose|m: nat| #[trigger] ancestor(old, b, y, m) is None;
                lemma_ancestor_agree(old, new, b, Some(t), y, m);
                assert(ancestor(new, b, y, m) is None);
            }
            if exists|j: nat| #[trigger] ancestor(old, b, x, j) == Some(t) {
                let j = choose|j: nat| #[trigger] ancestor(old, b, x, j) == Some(t);
                let f = lemma_first_pass(old, b, x, t, j);
                lemma_ancestor_agree(old, new, b, Some(t), x, f);
                let ni = new.tasks@.len();
                lemma_parent_at(new, b, t, i);
                assert(ancestor(new, b, x, f + 1) == row.parent_id);
                if let Some(p) = row.parent_id {
                    let m = choose|m: nat|
                        #[trigger] ancestor(old, b, p, m) is None && forall|k: nat| k < m ==> ancestor(old, b, p, k) != Some(t);
                    lemma_ancestor_agree(old, new, b, Some(t), p, m);
                    assert(ancestor(new, b, p, m) is None);
                    assert(chain_ends(new, b, p));
                    lemma_chain_ends_through(new, b, x, f + 1, p);
                } else {
                    assert(ancestor(new, b, x, f + 1) is None);
                }
            }
        }
    }
}

/// Every task up a chain of parents that starts at a task is a task.
proof fn lemma_chain_tasks(db: Db, b: i64, s: i64, k: nat)
    requires
        parents_exist(db.tasks@),
        task_exists(db.tasks@, s),
    ensures
        ancestor(db, b, s, k) is None || task_exists(db.tasks@, ancestor(db, b, s, k)->0),
    decreases k,
{
    if k > 0 {
        lemma_chain_tasks(db, b, s, (k - 1) as nat);
        if let Some(c) = ancestor(db, b, s, (k - 1) as nat) {
            lemma_parent_is_task(db, b, c);
        }
    }
}

/// A row added at the end is not the first row of any other task.
proof fn lemma_task_at_push(old: Db, new: Db, row: TaskRow, b: i64, v: i64)
    requires
        new.tasks@ == old.tasks@.push(row),
        v != row.id,
    ensures
        task_in_board(new.tasks@, b, v) == task_in_board(old.tasks@, b, v),
        task_in_board(old.tasks@, b, v) ==> task_at(new, b, v) == task_at(old, b, v),
{
    if task_in_board(new.tasks@, b, v) {
        let j = choose|j: int| 0 <= j < new.tasks@.len() && new.tasks@[j].id == v && new.tasks@[j].board_id == b;
        assert(old.tasks@[j] == new.tasks@[j]);
    }
    if task_in_board(old.tasks@, b, v) {
        let j = choose|j: int| 0 <= j < old.tasks@.len() && old.tasks@[j].id == v && old.tasks@[j].board_id == b;
        assert(new.tasks@[j] == old.tasks@[j]);
        lemma_first_task_exists(old.tasks@, b, v);
        let i = choose|i: int| first_task_in_board(old.tasks@, b, v, i);
        assert(first_task_in_board(new.tasks@, b, v, i));
        let i2 = choose|i: int| first_task_in_board(new.tasks@, b, v, i);
        lemma_first_task_unique(new.tasks@, b, v, i, i2);
    }
}

/// Adding the row of a task with a new id leaves the chain of parents from
/// any task as it was, and with it whether a large task is on it.
pub proof fn lemma_insert_keeps_chain(old: Db, new: Db, row: TaskRow, b: i64, s: i64)
    requires
        well_formed(old),
        forall|j: int| 0 <= j < old.tasks@.len() ==> old.tasks@[j].id != row.id,
        new.tasks@ == old.tasks@.push(row),
        task_exists(old.tasks@, s),
    ensures
        forall|k: nat| #[trigger] ancestor(new, b, s, k) == ancestor(old, b, s, k),
        no_large_above(old, b, s) ==> no_large_above(new, b, s),
{
    let n = row.id;
    let len = old.tasks@.len() as int;
    assert forall|c: i64| Some(c) != Some(n) implies #[trigger] parent_in_board(new, b, c) == parent_in_board(
        old,
        b,
        c,
    ) by {
        assert forall|j: int| 0 <= j < new.tasks@.len() && (#[trigger] new.tasks@[j]).id == c implies j
            < old.tasks@.len() && new.tasks@[j] == old.tasks@[j] by {
            if j == len {
                assert(new.tasks@[j] == row);
            }
        }
        lemma_same_rows_parent(old, new, b, c);
    }
    assert(parents_agree_except(old, new, b, Some(n)));
    assert forall|k: nat| #[trigger] ancestor(new, b, s, k) == ancestor(old, b, s, k) by {
        assert forall|j: nat| j < k implies (#[trigger] ancestor(old, b, s, j)) is None || ancestor(
            old,
            b,
            s,
            j,
        ) != Some(n) by {
            lemma_chain_tasks(old, b, s, j);
        }
        lemma_ancestor_agree(old, new, b, Some(n), s, k);
    }
    if no_large_above(old, b, s) {
        assert forall|k: nat| #[trigger] ancestor(new, b, s, k) is Some implies !is_large(
            new,
            b,
            ancestor(new, b, s, k)->0,
        ) by {
            let v = ancestor(old, b, s, k)->0;
            lemma_chain_tasks(old, b, s, k);
            lemma_task_at_push(old, new, row, b, v);
        }
    }
}

/// Changing the row of one task, keeping its id and board, leaves the
/// first row of every other task.
proof fn lemma_task_at_update(old: Db, new: Db, i: int, row: TaskRow, b: i64, v: i64)
    requires
        0 <= i < old.tasks@.len(),
        row.id == old.tasks@[i].id,
        row.board_id == old.tasks@[i].board_id,
        new.tasks@ == old.tasks@.update(i, row),
        v != row.id,
    ensures
        task_in_board(new.tasks@, b, v) == task_in_board(old.tasks@, b, v),
        task_in_board(old.tasks@, b, v) ==> task_at(new, b, v) == task_at(old, b, v),
{
    if task_in_board(new.tasks@, b, v) {
        let j = choose|j: int| 0 <= j < new.tasks@.len() && new.tasks@[j].id == v && new.tasks@[j].board_id == b;
        assert(old.tasks@[j] == new.tasks@[j]);
    }
    if task_in_board(old.tasks@, b, v) {
        let j = choose|j: int| 0 <= j < old.tasks@.len() && old.tasks@[j].id == v && old.tasks@[j].board_id == b;
        assert(new.tasks@[j] == old.tasks@[j]);
        lemma_first_task_exists(old.tasks@, b, v);
        let f = choose|f: int| first_task_in_board(old.tasks@, b, v, f);
        assert(first_task_in_board(new.tasks@, b, v, f));
        let f2 = choose|f: int| first_task_in_board(new.tasks@, b, v, f);
        lemma_first_task_unique(new.tasks@, b, v, f, f2);
    }
}

/// Changing the row of one task, keeping its id and board, leaves every
/// chain of parents that does not pass that task as it was, and with it
/// whether a large task is on it.
pub proof fn lemma_update_keeps_chain(old: Db, new: Db, i: int, row: TaskRow, b: i64, s: i64)
    requires
        0 <= i < old.tasks@.len(),
        row.id == old.tasks@[i].id,
        row.board_id == old.tasks@[i].board_id,
        new.tasks@ == old.tasks@.update(i, row),
        forall|k: nat| #[trigger] ancestor(old, b, s, k) != Some(row.id),
    ensures
        forall|k: nat| #[trigger] ancestor(new, b, s, k) == ancestor(old, b, s, k),
        no_large_above(old, b, s) ==> no_large_above(new, b, s),
{
    let t = row.id;
    assert forall|c: i64| Some(c) != Some(t) implies #[trigger] parent_in_board(new, b, c) == parent_in_board(
        old,
        b,
        c,
    ) by {
        assert forall|j: int| 0 <= j < old.tasks@.len() && (#[trigger] old.tasks@[j]).id == c implies new.tasks@[j]
            == old.tasks@[j] by {}
        assert forall|j: int| 0 <= j < new.tasks@.len() && (#[trigger] new.tasks@[j]).id == c implies j
            < old.tasks@.len() && new.tasks@[j] == old.tasks@[j] by {}
        lemma_same_rows_parent(old, new, b, c);
    }
    assert(parents_agree_except(old, new, b, Some(t)));
    assert forall|k: nat| #[trigger] ancestor(new, b, s, k) == ancestor(old, b, s, k) by {
        assert forall|j: nat| j < k implies (#[trigger] ancestor(old, b, s, j)) is None || ancestor(
            old,
            b,
            s,
            j,
        ) != Some(t) by {}
        lemma_ancestor_agree(old, new, b, Some(t), s, k);
    }
    if no_large_above(old, b, s) {
        assert forall|k: nat| #[trigger] ancestor(new, b, s, k) is Some implies !is_large(
            new,
            b,
            ancestor(new, b, s, k)->0,
        ) by {
            let v = ancestor(old, b, s, k)->0;
            lemma_task_at_update(old, new, i, row, b, v);
        }
    }
}

/// The chain of parents above a task's parent never comes back to the
/// task, when its own chain ends.
pub proof fn lemma_parent_chain_avoids(db: Db, b: i64, t: i64, p: i64)
    requires
        chain_ends(db, b, t),
        parent_in_board(db, b, t) == Some(p),
    ensures
        forall|k: nat| #[trigger] ancestor(db, b, p, k) != Some(t),
{
    assert forall|k: nat| #[trigger] ancestor(db, b, p, k) != Some(t) by {
        if ancestor(db, b, p, k) == Some(t) {
            assert(ancestor(db, b, t, 1) == Some(p));
            lemma_ancestor_from(db, b, t, 1, p, k);
            assert(ancestor(db, b, t, 1 + k) == Some(t));
            assert(ancestor(db, b, t, 0) == ancestor(db, b, t, 1 + k));
            assert forall|q: nat| q <= 1 + k implies (#[trigger] ancestor(db, b, t, q)) is Some by {
                if ancestor(db, b, t, q) is None {
                    lemma_ancestor_none_stays(db, b, t, q, 1 + k);
                }
            }
            let m = choose|m: nat| #[trigger] ancestor(db, b, t, m) is None;
            lemma_ancestor_cycle_never_ends(db, b, t, 0, 1 + k, m);
        }
    }
}

/// A chain that ends before reaching a task never passes it.
pub proof fn lemma_chain_ends_before_avoids(db: Db, b: i64, s: i64, t: i64)
    requires
        crate::task::chain_ends_before(db, b, s, t),
    ensures
        forall|k: nat| #[trigger] ancestor(db, b, s, k) != Some(t),
{
    let n = choose|n: nat|
        #[trigger] ancestor(db, b, s, n) is None && forall|k: nat| k < n ==> ancestor(db, b, s, k) != Some(t);
    assert forall|k: nat| #[trigger] ancestor(db, b, s, k) != Some(t) by {
        if k >= n {
            lemma_ancestor_none_stays(db, b, s, n, k);
        }
    }
}

/// Removing marked rows from tables whose task ids are used once leaves
/// every chain of parents a prefix of what it was, with the same sizes on
/// it: no large task comes onto a chain that had none.
pub proof fn lemma_remove_keeps_no_large(old: Db, new: Db, marks: Seq<bool>, b: i64, s: i64)
    requires
        unique_task_ids(old.tasks@),
        marks.len() == old.tasks@.len(),
        new.tasks@ == unmarked_tasks(old.tasks@, marks),
        no_large_above(old, b, s),
    ensures
        no_large_above(new, b, s),
{
    lemma_unmarked_rows(old.tasks@, marks);
    let nt = new.tasks@;
    assert forall|c: i64| #[trigger] parent_in_board(new, b, c) is None || parent_in_board(new, b, c)
        == parent_in_board(old, b, c) by {
        if task_in_board(nt, b, c) {
            let k = choose|k: int| 0 <= k < nt.len() && nt[k].id == c && nt[k].board_id == b;
            assert forall|j: int| 0 <= j < nt.len() && j != k implies nt[j].id != c by {
                assert(nt[j].id != nt[k].id);
            }
            lemma_parent_at(new, b, c, k);
            let a = choose|a: int| 0 <= a < old.tasks@.len() && !marks[a] && old.tasks@[a] == #[trigger] nt[k];
            assert forall|j: int| 0 <= j < old.tasks@.len() && j != a implies old.tasks@[j].id != c by {
                assert(old.tasks@[j].id != old.tasks@[a].id);
            }
            lemma_parent_at(old, b, c, a);
        }
    }
    assert forall|k: nat| #[trigger] ancestor(new, b, s, k) is Some implies !is_large(
        new,
        b,
        ancestor(new, b, s, k)->0,
    ) by {
        lemma_ancestor_prefix(old, new, b, s, k);
        let v = ancestor(new, b, s, k)->0;
        assert(ancestor(old, b, s, k) == Some(v));
        if task_in_board(nt, b, v) {
            let q = choose|q: int| 0 <= q < nt.len() && nt[q].id == v && nt[q].board_id == b;
            assert forall|j: int| 0 <= j < q implies !(nt[j].id == v && nt[j].board_id == b) by {
                assert(nt[j].id != nt[q].id);
            }
            assert(first_task_in_board(nt, b, v, q));
            let q2 = choose|i: int| first_task_in_board(nt, b, v, i);
            lemma_first_task_unique(nt, b, v, q, q2);
            let a = choose|a: int| 0 <= a < old.tasks@.len() && !marks[a] && old.tasks@[a] == #[trigger] nt[q];
            assert forall|j: int| 0 <= j < a implies !(old.tasks@[j].id == v && old.tasks@[j].board_id == b) by {
                assert(old.tasks@[j].id != old.tasks@[a].id);
            }
            assert(first_task_in_board(old.tasks@, b, v, a));
            let a2 = choose|i: int| first_task_in_board(old.tasks@, b, v, i);
            lemma_first_task_unique(old.tasks@, b, v, a, a2);
            assert(task_at(new, b, v) == task_at(old, b, v));
        }
    }
}

/// A task's subtasks are the ids of the rows on its board that name it as
/// their parent.
pub proof fn lemma_child_ids_rows(tasks: Seq<TaskRow>, board_id: i64, v: i64, c: i64)
    ensures
        crate::task::child_ids(tasks, board_id, v).contains(c) <==> exists|j: int|
            0 <= j < tasks.len() && #[trigger] tasks[j].id == c && tasks[j].board_id == board_id
                && tasks[j].parent_id == Some(v),
    decreases tasks.len(),
{
    if tasks.len() > 0 {
        let d = tasks.drop_last();
        lemma_child_ids_rows(d, board_id, v, c);
        let ch = crate::task::child_ids(tasks, board_id, v);
        let pc = crate::task::child_ids(d, board_id, v);
        let t = tasks.last();
        assert(t == tasks[tasks.len() - 1]);
        let hit = t.board_id == board_id && t.parent_id == Some(v);
        if hit {
            assert(ch == pc.push(t.id));
            assert(ch.contains(c) <==> (pc.contains(c) || t.id == c)) by {
                if ch.contains(c) {
                    let i = choose|i: int| 0 <= i < ch.len() && ch[i] == c;
                    if i < pc.len() {
                        assert(pc[i] == ch[i]);
                    }
                }
                if pc.contains(c) {
                    let i = choose|i: int| 0 <= i < pc.len() && pc[i] == c;
                    assert(ch[i] == pc[i]);
                }
                if t.id == c {
                    assert(ch[pc.len() as int] == c);
                }
            }
        } else {
            assert(ch == pc);
        }
        if exists|j: int| 0 <= j < tasks.len() && #[trigger] tasks[j].id == c && tasks[j].board_id == board_id
            && tasks[j].parent_id == Some(v) {
            let j = choose|j: int| 0 <= j < tasks.len() && #[trigger] tasks[j].id == c && tasks[j].board_id == board_id
                && tasks[j].parent_id == Some(v);
            if j < d.len() {
                assert(d[j] == tasks[j]);
            }
        }
        if exists|j: int| 0 <= j < d.len() && #[trigger] d[j].id == c && d[j].board_id == board_id
            && d[j].parent_id == Some(v) {
            let j = choose|j: int| 0 <= j < d.len() && #[trigger] d[j].id == c && d[j].board_id == board_id
                && d[j].parent_id == Some(v);
            assert(tasks[j] == d[j]);
        }
    }
}

/// Removing marked rows keeps a chain's fit in `g`: fewer dependency rows
/// and fewer subtasks, along a chain that only gets shorter.
pub proof fn lemma_remove_keeps_fits(
    old: Db,
    new: Db,
    marks: Seq<bool>,
    b: i64,
    s: i64,
    g: spec_fn(i64, i64) -> bool,
)
    requires
        unique_task_ids(old.tasks@),
        marks.len() == old.tasks@.len(),
        new.tasks@ == unmarked_tasks(old.tasks@, marks),
        new.dependencies@ == old.dependencies@.filter(dep_survives(old.tasks@, marks)),
        crate::task::edges_within(old, b, g),
        crate::task::children_edges_in(old, b, s, g),
    ensures
        crate::task::edges_within(new, b, g),
        crate::task::children_edges_in(new, b, s, g),
{
    lemma_unmarked_rows(old.tasks@, marks);
    let nt = new.tasks@;
    assert forall|x: i64, y: i64|
        #[trigger] dep_row_in(new, b, new.dependencies@.len() as int, x, y) implies g(x, y) by {
        let k = choose|k: int|
            0 <= k < new.dependencies@.len() && k < new.dependencies@.len()
                && #[trigger] new.dependencies@[k].task_id == x && new.dependencies@[k].depends_on == y
                && task_in_board(new.tasks@, b, x);
        let d = new.dependencies@[k];
        assert(new.dependencies@.contains(d));
        old.dependencies@.lemma_filter_contains_rev(dep_survives(old.tasks@, marks), d);
        let m = choose|m: int| 0 <= m < old.dependencies@.len() && old.dependencies@[m] == d;
        let j = choose|j: int| 0 <= j < nt.len() && nt[j].id == x && nt[j].board_id == b;
        let a = choose|a: int| 0 <= a < old.tasks@.len() && !marks[a] && old.tasks@[a] == #[trigger] nt[j];
        assert(task_in_board(old.tasks@, b, x));
        assert(dep_row_in(old, b, old.dependencies@.len() as int, x, y));
    }
    assert forall|c: i64| #[trigger] parent_in_board(new, b, c) is None || parent_in_board(new, b, c)
        == parent_in_board(old, b, c) by {
        if task_in_board(nt, b, c) {
            let k = choose|k: int| 0 <= k < nt.len() && nt[k].id == c && nt[k].board_id == b;
            assert forall|j: int| 0 <= j < nt.len() && j != k implies nt[j].id != c by {
                assert(nt[j].id != nt[k].id);
            }
            lemma_parent_at(new, b, c, k);
            let a = choose|a: int| 0 <= a < old.tasks@.len() && !marks[a] && old.tasks@[a] == #[trigger] nt[k];
            assert forall|j: int| 0 <= j < old.tasks@.len() && j != a implies old.tasks@[j].id != c by {
                assert(old.tasks@[j].id != old.tasks@[a].id);
            }
            lemma_parent_at(old, b, c, a);
        }
    }
    assert forall|k: nat, c: i64|
        #[trigger] ancestor(new, b, s, k) is Some && is_large(new, b, ancestor(new, b, s, k)->0)
            && #[trigger] crate::task::child_ids(new.tasks@, b, ancestor(new, b, s, k)->0).contains(c)
            implies g(ancestor(new, b, s, k)->0, c) by {
        lemma_ancestor_prefix(old, new, b, s, k);
        let v = ancestor(new, b, s, k)->0;
        assert(ancestor(old, b, s, k) == Some(v));
        let q = choose|q: int| 0 <= q < nt.len() && nt[q].id == v && nt[q].board_id == b;
        assert forall|j: int| 0 <= j < q implies !(nt[j].id == v && nt[j].board_id == b) by {
            assert(nt[j].id != nt[q].id);
        }
        assert(first_task_in_board(nt, b, v, q));
        let q2 = choose|i: int| first_task_in_board(nt, b, v, i);
        lemma_first_task_unique(nt, b, v, q, q2);
        let a = choose|a: int| 0 <= a < old.tasks@.len() && !marks[a] && old.tasks@[a] == #[trigger] nt[q];
        assert forall|j: int| 0 <= j < a implies !(old.tasks@[j].id == v && old.tasks@[j].board_id == b) by {
            assert(old.tasks@[j].id != old.tasks@[a].id);
        }
        assert(first_task_in_board(old.tasks@, b, v, a));
        let a2 = choose|i: int| first_task_in_board(old.tasks@, b, v, i);
        lemma_first_task_unique(old.tasks@, b, v, a, a2);
        assert(task_at(new, b, v) == task_at(old, b, v));
        assert(is_large(old, b, v));
        lemma_child_ids_rows(nt, b, v, c);
        let r = choose|r: int| 0 <= r < nt.len() && #[trigger] nt[r].id == c && nt[r].board_id == b
            && nt[r].parent_id == Some(v);
        let ra = choose|ra: int| 0 <= ra < old.tasks@.len() && !marks[ra] && old.tasks@[ra] == #[trigger] nt[r];
        assert(old.tasks@[ra].id == c);
        lemma_child_ids_rows(old.tasks@, b, v, c);
        assert(crate::task::child_ids(old.tasks@, b, ancestor(old, b, s, k)->0).contains(c));
    }
}

/// Removing rows keeps no more rows.
pub proof fn lemma_unmarked_len(tasks: Seq<TaskRow>, marks: Seq<bool>)
    ensures
        unmarked_tasks(tasks, marks).len() <= tasks.len(),
    decreases tasks.len(),
{
    if tasks.len() > 0 {
        lemma_unmarked_len(tasks.drop_last(), marks);
    }
}

/// Keeping some of the notes keeps the largest note id from growing.
pub proof fn lemma_filtered_notes_max(notes: Seq<crate::store::Note>, p: spec_fn(crate::store::Note) -> bool)
    ensures
        crate::store::max_id(crate::store::note_ids(notes.filter(p))) <= crate::store::max_id(
            crate::store::note_ids(notes),
        ),
{
    let f = notes.filter(p);
    let m = crate::store::max_id(crate::store::note_ids(notes));
    crate::store::lemma_max_id_bound(crate::store::note_ids(notes));
    assert forall|k: int| 0 <= k < f.len() implies #[trigger] crate::store::note_ids(f)[k] <= m by {
        assert(f.contains(f[k]));
        notes.lemma_filter_contains_rev(p, f[k]);
        let j = choose|j: int| 0 <= j < notes.len() && notes[j] == f[k];
        assert(crate::store::note_ids(notes)[j] == notes[j].id);
    }
    crate::store::lemma_max_id_at_most(crate::store::note_ids(f), m);
}


/// Adding a task with a new id under task `p` keeps the large tasks on the
/// chain from `p` fit to be brought up to date: the dependency rows, the
/// subtasks of those large tasks and the new subtask of `p` lie in a graph
/// without cycles, when the chain was up to date before.
pub proof fn lemma_insert_keeps_fits(old: Db, new: Db, row: TaskRow, b: i64, p: i64)
    requires
        well_formed(old),
        forall|j: int| 0 <= j < old.tasks@.len() ==> old.tasks@[j].id != row.id,
        new.tasks@ == old.tasks@.push(row),
        new.dependencies@ == old.dependencies@,
        row.board_id == b,
        row.parent_id == Some(p),
        task_in_board(old.tasks@, b, p),
        crate::task::chain_up_to_date(old, b, p),
    ensures
        exists|g: spec_fn(i64, i64) -> bool|
            #[trigger] acyclic(g) && crate::task::edges_within(new, b, g) && crate::task::children_edges_in(
                new,
                b,
                p,
                g,
            ),
{
    let n = row.id;
    let g = board_dep_edges(old, b);
    crate::task::lemma_up_to_date_fits(old, b, p);
    assert forall|y: i64| !#[trigger] g(n, y) by {
        if g(n, y) {
            let k = choose|k: int|
                0 <= k < old.dependencies@.len() && k < old.dependencies@.len()
                    && #[trigger] old.dependencies@[k].task_id == n && old.dependencies@[k].depends_on == y
                    && task_in_board(old.tasks@, b, n);
            let j = choose|j: int| 0 <= j < old.tasks@.len() && old.tasks@[j].id == n && old.tasks@[j].board_id == b;
        }
    }
    let jp = choose|j: int| 0 <= j < old.tasks@.len() && old.tasks@[j].id == p && old.tasks@[j].board_id == b;
    assert(p != n);
    if reaches(g, n, p) {
        crate::graph::lemma_sink_reaches_itself(g, n, p);
    }
    crate::graph::lemma_with_edge_acyclic(g, p, n);
    let h = crate::graph::with_edge(g, p, n);
    assert forall|x: i64, y: i64|
        #[trigger] dep_row_in(new, b, new.dependencies@.len() as int, x, y) implies h(x, y) by {
        let k = choose|k: int|
            0 <= k < new.dependencies@.len() && k < new.dependencies@.len()
                && #[trigger] new.dependencies@[k].task_id == x && new.dependencies@[k].depends_on == y
                && task_in_board(new.tasks@, b, x);
        assert(task_exists(old.tasks@, old.dependencies@[k].task_id));
        lemma_task_at_push(old, new, row, b, x);
        assert(dep_row_in(old, b, old.dependencies@.len() as int, x, y));
    }
    assert(crate::task::edges_within(new, b, h));
    assert(task_exists(old.tasks@, p));
    lemma_insert_keeps_chain(old, new, row, b, p);
    assert forall|k: nat, c: i64|
        #[trigger] ancestor(new, b, p, k) is Some && is_large(new, b, ancestor(new, b, p, k)->0)
            && #[trigger] crate::task::child_ids(new.tasks@, b, ancestor(new, b, p, k)->0).contains(c)
            implies h(ancestor(new, b, p, k)->0, c) by {
        let v = ancestor(new, b, p, k)->0;
        assert(ancestor(old, b, p, k) == Some(v));
        lemma_chain_tasks(old, b, p, k);
        lemma_task_at_push(old, new, row, b, v);
        assert(is_large(old, b, v));
        if !(v == p && c == n) {
            lemma_child_ids_rows(new.tasks@, b, v, c);
            let r = choose|r: int| 0 <= r < new.tasks@.len() && #[trigger] new.tasks@[r].id == c
                && new.tasks@[r].board_id == b && new.tasks@[r].parent_id == Some(v);
            assert(r < old.tasks@.len());
            assert(old.tasks@[r] == new.tasks@[r]);
            lemma_child_ids_rows(old.tasks@, b, v, c);
            assert(crate::task::child_ids(old.tasks@, b, ancestor(old, b, p, k)->0).contains(c));
            assert(g(v, c));
        }
    }
    assert(crate::task::children_edges_in(new, b, p, h));
}


/// Adding a task with a new id and dependencies that the check accepts
/// under task `p` keeps the large tasks on the chain from `p` fit to be
/// brought up to date, when the chain was up to date before and the new
/// task does not reach `p` through its dependencies.
pub proof fn lemma_insert_deps_keeps_fits(
    old: Db,
    inserted: Db,
    new: Db,
    row: TaskRow,
    b: i64,
    p: i64,
    nd: Seq<i64>,
)
    requires
        well_formed(old),
        forall|j: int| 0 <= j < old.tasks@.len() ==> old.tasks@[j].id != row.id,
        inserted.tasks@ == old.tasks@.push(row),
        inserted.dependencies@ == old.dependencies@,
        new.tasks@ == inserted.tasks@,
        new.dependencies@ == inserted.dependencies@.filter(deps_of_others(row.id)) + dep_rows(row.id, nd),
        dep_check(old, b, row.id, nd) is Fine,
        !reaches(crate::task::edges_with(old, b, row.id, nd), row.id, p),
        row.board_id == b,
        row.parent_id == Some(p),
        task_in_board(old.tasks@, b, p),
        crate::task::chain_up_to_date(old, b, p),
    ensures
        exists|g: spec_fn(i64, i64) -> bool|
            #[trigger] acyclic(g) && crate::task::edges_within(new, b, g) && crate::task::children_edges_in(
                new,
                b,
                p,
                g,
            ),
{
    broadcast use vstd::seq_lib::group_filter_ensures;

    let n = row.id;
    let g = board_dep_edges(old, b);
    crate::task::lemma_up_to_date_fits(old, b, p);
    crate::task::lemma_dep_check_new_row(old, inserted, b, n, row, nd);
    let gi = board_dep_edges(inserted, b);
    assert forall|x: i64, y: i64| #[trigger] gi(x, y) implies g(x, y) by {
        let k = choose|k: int|
            0 <= k < inserted.dependencies@.len() && k < inserted.dependencies@.len()
                && #[trigger] inserted.dependencies@[k].task_id == x && inserted.dependencies@[k].depends_on == y
                && task_in_board(inserted.tasks@, b, x);
        assert(task_exists(old.tasks@, old.dependencies@[k].task_id));
        lemma_task_at_push(old, inserted, row, b, x);
        assert(dep_row_in(old, b, old.dependencies@.len() as int, x, y));
    }
    assert forall|x: i64, y: i64| #[trigger] is_edge(gi, x, y) implies !reaches(gi, y, x) by {
        if reaches(gi, y, x) {
            let q = choose|q: Seq<i64>| #[trigger] is_path(gi, q, y, x);
            lemma_path_sub(gi, g, q, y, x);
            assert(is_edge(g, x, y));
        }
    }
    law_set_dependencies_keeps_acyclic(inserted, new, b, n, nd);
    crate::task::lemma_new_edges_checked(inserted, new, b, n, nd);
    let h = board_dep_edges(new, b);
    let e = crate::task::edges_with(old, b, n, nd);
    if reaches(h, n, p) {
        let q = choose|q: Seq<i64>| #[trigger] is_path(h, q, n, p);
        lemma_path_sub(h, e, q, n, p);
    }
    crate::graph::lemma_with_edge_acyclic(h, p, n);
    let h2 = crate::graph::with_edge(h, p, n);
    assert(crate::task::edges_within(new, b, h2));
    let jp = choose|j: int| 0 <= j < old.tasks@.len() && old.tasks@[j].id == p && old.tasks@[j].board_id == b;
    assert(task_exists(old.tasks@, p));
    lemma_insert_keeps_chain(old, inserted, row, b, p);
    let kept = inserted.dependencies@.filter(deps_of_others(n));
    assert forall|k: nat, c: i64|
        #[trigger] ancestor(new, b, p, k) is Some && is_large(new, b, ancestor(new, b, p, k)->0)
            && #[trigger] crate::task::child_ids(new.tasks@, b, ancestor(new, b, p, k)->0).contains(c)
            implies h2(ancestor(new, b, p, k)->0, c) by {
        let v = ancestor(new, b, p, k)->0;
        crate::task::lemma_same_shape_refl(new.tasks@);
        crate::task::lemma_same_shape_ancestor(inserted, new, b, p, k);
        crate::task::lemma_same_shape_task_at(inserted, new, b, v);
        assert(ancestor(old, b, p, k) == Some(v));
        lemma_chain_tasks(old, b, p, k);
        let jv = choose|i: int| 0 <= i < old.tasks@.len() && #[trigger] old.tasks@[i].id == v;
        assert(v != n);
        lemma_task_at_push(old, inserted, row, b, v);
        assert(is_large(old, b, v));
        if !(v == p && c == n) {
            lemma_child_ids_rows(new.tasks@, b, v, c);
            let r = choose|r: int| 0 <= r < new.tasks@.len() && #[trigger] new.tasks@[r].id == c
                && new.tasks@[r].board_id == b && new.tasks@[r].parent_id == Some(v);
            assert(r < old.tasks@.len());
            assert(old.tasks@[r] == new.tasks@[r]);
            lemma_child_ids_rows(old.tasks@, b, v, c);
            assert(crate::task::child_ids(old.tasks@, b, ancestor(old, b, p, k)->0).contains(c));
            assert(g(v, c));
            let m = choose|m: int|
                0 <= m < old.dependencies@.len() && m < old.dependencies@.len()
                    && #[trigger] old.dependencies@[m].task_id == v && old.dependencies@[m].depends_on == c
                    && task_in_board(old.tasks@, b, v);
            let d = old.dependencies@[m];
            assert(inserted.dependencies@[m] == d);
            assert(kept.contains(d));
            let m2 = choose|m2: int| 0 <= m2 < kept.len() && kept[m2] == d;
            assert(new.dependencies@[m2] == d);
            assert(dep_row_in(new, b, new.dependencies@.len() as int, v, c));
        }
    }
    assert(crate::task::children_edges_in(new, b, p, h2));
}


/// Changing the row of a task without moving it, and keeping the dependency
/// rows of every other task, keeps the large tasks on the chain above it fit
/// to be brought up to date, when that chain was up to date before.
pub proof fn lemma_edit_keeps_fits(old: Db, new: Db, i: int, row: TaskRow, b: i64, p: i64)
    requires
        well_formed(old),
        well_formed(new),
        0 <= i < old.tasks@.len(),
        row.id == old.tasks@[i].id,
        row.board_id == old.tasks@[i].board_id,
        row.parent_id == old.tasks@[i].parent_id,
        new.tasks@ == old.tasks@.update(i, row),
        forall|k: nat| #[trigger] ancestor(old, b, p, k) != Some(row.id),
        forall|m: int|
            0 <= m < old.dependencies@.len() && old.dependencies@[m].task_id != row.id
                ==> new.dependencies@.contains(#[trigger] old.dependencies@[m]),
        crate::task::chain_up_to_date(old, b, p),
    ensures
        exists|g: spec_fn(i64, i64) -> bool|
            #[trigger] acyclic(g) && crate::task::edges_within(new, b, g) && crate::task::children_edges_in(
                new,
                b,
                p,
                g,
            ),
{
    let t = row.id;
    let g = board_dep_edges(old, b);
    let h = board_dep_edges(new, b);
    crate::task::lemma_up_to_date_fits(old, b, p);
    assert(acyclic(h));
    assert(crate::task::edges_within(new, b, h));
    lemma_update_keeps_chain(old, new, i, row, b, p);
    assert forall|k: nat, c: i64|
        #[trigger] ancestor(new, b, p, k) is Some && is_large(new, b, ancestor(new, b, p, k)->0)
            && #[trigger] crate::task::child_ids(new.tasks@, b, ancestor(new, b, p, k)->0).contains(c)
            implies h(ancestor(new, b, p, k)->0, c) by {
        let v = ancestor(new, b, p, k)->0;
        assert(ancestor(old, b, p, k) == Some(v));
        assert(v != t);
        lemma_task_at_update(old, new, i, row, b, v);
        assert(is_large(old, b, v));
        lemma_child_ids_rows(new.tasks@, b, v, c);
        let r = choose|r: int| 0 <= r < new.tasks@.len() && #[trigger] new.tasks@[r].id == c
            && new.tasks@[r].board_id == b && new.tasks@[r].parent_id == Some(v);
        assert(old.tasks@[r].id == c && old.tasks@[r].board_id == b && old.tasks@[r].parent_id == Some(v));
        lemma_child_ids_rows(old.tasks@, b, v, c);
        assert(crate::task::child_ids(old.tasks@, b, ancestor(old, b, p, k)->0).contains(c));
        assert(g(v, c));
        let m = choose|m: int|
            0 <= m < old.dependencies@.len() && m < old.dependencies@.len()
                && #[trigger] old.dependencies@[m].task_id == v && old.dependencies@[m].depends_on == c
                && task_in_board(old.tasks@, b, v);
        let d = old.dependencies@[m];
        assert(new.dependencies@.contains(d));
        let m2 = choose|m2: int| 0 <= m2 < new.dependencies@.len() && new.dependencies@[m2] == d;
        assert(dep_row_in(new, b, new.dependencies@.len() as int, v, c));
    }
    assert(crate::task::children_edges_in(new, b, p, h));
}


/// The board rows come in increasing order of id, and no user is a member
/// of a board twice.
pub open spec fn tables_keyed(db: Db) -> bool {
    &&& forall|i: int, j: int|
        0 <= i < j < db.boards@.len() ==> #[trigger] db.boards@[i].id < #[trigger] db.boards@[j].id
    &&& forall|i: int, j: int|
        0 <= i < j < db.members@.len() ==> #[trigger] db.members@[i] != #[trigger] db.members@[j]
}

/// A relation that holds between every earlier and later element of a
/// sequence holds so of what a filter keeps of it.
pub proof fn lemma_filter_keeps_pairs<A>(s: Seq<A>, p: spec_fn(A) -> bool, rel: spec_fn(A, A) -> bool)
    requires
        forall|i: int, j: int| 0 <= i < j < s.len() ==> #[trigger] rel(s[i], s[j]),
    ensures
        forall|i: int, j: int|
            0 <= i < j < s.filter(p).len() ==> #[trigger] rel(s.filter(p)[i], s.filter(p)[j]),
    decreases s.len(),
{
    broadcast use vstd::seq_lib::group_filter_ensures;

    reveal_with_fuel(Seq::<_>::filter, 1);
    if s.len() > 0 {
        let d = s.drop_last();
        assert forall|i: int, j: int| 0 <= i < j < d.len() implies #[trigger] rel(d[i], d[j]) by {
            assert(rel(s[i], s[j]));
        }
        lemma_filter_keeps_pairs(d, p, rel);
        let fd = d.filter(p);
        let f = s.filter(p);
        assert(s.last() == s[s.len() - 1]);
        if p(s.last()) {
            assert(f == fd.push(s.last()));
            assert forall|i: int, j: int| 0 <= i < j < f.len() implies #[trigger] rel(f[i], f[j]) by {
                assert(f[i] == fd[i]);
                if j < fd.len() {
                    assert(f[j] == fd[j]);
                } else {
                    assert(fd.contains(fd[i]));
                    d.lemma_filter_contains_rev(p, fd[i]);
                    assert(d.contains(fd[i]));
                    let k = choose|k: int| 0 <= k < d.len() && d[k] == fd[i];
                    assert(rel(s[k], s[s.len() - 1]));
                }
            }
        } else {
            assert(f == fd);
        }
    }
}

/// A filter keeps the table keyed.
pub proof fn lemma_keyed_filter(
    old: Db,
    new: Db,
    bp: spec_fn(crate::store::Board) -> bool,
    mp: spec_fn(crate::store::Member) -> bool,
)
    requires
        tables_keyed(old),
        new.boards@ == old.boards@ || new.boards@ == old.boards@.filter(bp),
        new.members@ == old.members@ || new.members@ == old.members@.filter(mp),
    ensures
        tables_keyed(new),
{
    let br = |x: crate::store::Board, y: crate::store::Board| x.id < y.id;
    let mr = |x: crate::store::Member, y: crate::store::Member| x != y;
    assert forall|i: int, j: int| 0 <= i < j < old.boards@.len() implies #[trigger] br(old.boards@[i], old.boards@[j]) by {
        assert(old.boards@[i].id < old.boards@[j].id);
    }
    assert forall|i: int, j: int| 0 <= i < j < old.members@.len() implies #[trigger] mr(old.members@[i], old.members@[j]) by {
        assert(old.members@[i] != old.members@[j]);
    }
    lemma_filter_keeps_pairs(old.boards@, bp, br);
    lemma_filter_keeps_pairs(old.members@, mp, mr);
    assert forall|i: int, j: int| 0 <= i < j < new.boards@.len() implies #[trigger] new.boards@[i].id < #[trigger] new.boards@[j].id by {
        if new.boards@ != old.boards@ {
            assert(br(new.boards@[i], new.boards@[j]));
        }
    }
    assert forall|i: int, j: int| 0 <= i < j < new.members@.len() implies #[trigger] new.members@[i] != #[trigger] new.members@[j] by {
        if new.members@ != old.members@ {
            assert(mr(new.members@[i], new.members@[j]));
        }
    }
}


/// Adding a row that is neither task `v` nor a subtask of it leaves whether
/// `v` is up to date as it was.
pub proof fn lemma_consistent_push(old: Db, new: Db, row: TaskRow, b2: i64, v: i64)
    requires
        new.tasks@ == old.tasks@.push(row),
        row.id != v,
        !(row.board_id == b2 && row.parent_id == Some(v)),
        crate::task::deps_listed(new.dependencies@, v) == crate::task::deps_listed(old.dependencies@, v),
    ensures
        crate::task::large_consistent(new, b2, v) == crate::task::large_consistent(old, b2, v),
{
    lemma_task_at_push(old, new, row, b2, v);
    assert(new.tasks@.drop_last() =~= old.tasks@);
    assert(new.tasks@.last() == row);
    assert(crate::task::child_statuses(new.tasks@, b2, v) == crate::task::child_statuses(old.tasks@, b2, v));
    assert(crate::task::child_ids(new.tasks@, b2, v) == crate::task::child_ids(old.tasks@, b2, v));
}


/// A dependency row of `v` lists its target among `v`'s dependencies.
proof fn lemma_deps_listed_has_row(deps: Seq<crate::store::Dependency>, v: i64, k: int)
    requires
        0 <= k < deps.len(),
        deps[k].task_id == v,
    ensures
        crate::task::deps_listed(deps, v).contains(deps[k].depends_on),
    decreases deps.len(),
{
    let d = deps.drop_last();
    if k < deps.len() - 1 {
        assert(d[k] == deps[k]);
        lemma_deps_listed_has_row(d, v, k);
        let l = crate::task::deps_listed(d, v);
        let j = choose|j: int| 0 <= j < l.len() && l[j] == deps[k].depends_on;
        assert(deps.last().task_id == v ==> crate::task::deps_listed(deps, v)[j] == l[j]);
    } else {
        assert(deps.last() == deps[k]);
        let l = crate::task::deps_listed(deps, v);
        assert(l[l.len() - 1] == deps[k].depends_on);
    }
}

/// A filter that keeps every dependency row of `v` keeps `v`'s
/// dependencies.
proof fn lemma_deps_listed_keep(deps: Seq<crate::store::Dependency>, p: spec_fn(crate::store::Dependency) -> bool, v: i64)
    requires
        forall|k: int| 0 <= k < deps.len() && (#[trigger] deps[k]).task_id == v ==> p(deps[k]),
    ensures
        crate::task::deps_listed(deps.filter(p), v) == crate::task::deps_listed(deps, v),
    decreases deps.len(),
{
    if deps.len() > 0 {
        let rest = deps.drop_last();
        let x = deps.last();
        assert forall|k: int| 0 <= k < rest.len() && (#[trigger] rest[k]).task_id == v implies p(rest[k]) by {
            assert(deps[k] == rest[k]);
        }
        lemma_deps_listed_keep(rest, p, v);
        assert(rest.push(x) =~= deps);
        rest.lemma_filter_push(x, p);
        assert(x == deps[deps.len() - 1]);
        if p(x) {
            let f = rest.filter(p).push(x);
            assert(f.drop_last() =~= rest.filter(p));
        }
    } else {
        reveal_with_fuel(Seq::<_>::filter, 1);
        assert(deps.filter(p) =~= deps);
    }
}

/// Removing rows none of which is a subtask of `v` keeps `v`'s subtasks and
/// their statuses.
proof fn lemma_unmarked_children(tasks: Seq<TaskRow>, marks: Seq<bool>, b2: i64, v: i64)
    requires
        marks.len() >= tasks.len(),
        forall|k: int| 0 <= k < tasks.len() && #[trigger] marks[k] ==> !(tasks[k].board_id == b2 && tasks[k].parent_id == Some(v)),
    ensures
        crate::task::child_statuses(unmarked_tasks(tasks, marks), b2, v) == crate::task::child_statuses(tasks, b2, v),
        crate::task::child_ids(unmarked_tasks(tasks, marks), b2, v) == crate::task::child_ids(tasks, b2, v),
    decreases tasks.len(),
{
    if tasks.len() > 0 {
        let d = tasks.drop_last();
        assert forall|k: int| 0 <= k < d.len() && #[trigger] marks[k] implies !(d[k].board_id == b2 && d[k].parent_id == Some(v)) by {
            assert(tasks[k] == d[k]);
        }
        lemma_unmarked_children(d, marks, b2, v);
        let prev = unmarked_tasks(d, marks);
        let last = tasks.last();
        assert(last == tasks[tasks.len() - 1]);
        if !marks[tasks.len() - 1] {
            assert(prev.push(last).drop_last() =~= prev);
            assert(prev.push(last).last() == last);
        }
    }
}

/// With ids used once, the row of task `v` on a board is the one row with
/// that id.
proof fn lemma_task_at_unique(db: Db, b: i64, v: i64, j: int)
    requires
        unique_task_ids(db.tasks@),
        0 <= j < db.tasks@.len(),
        db.tasks@[j].id == v,
        db.tasks@[j].board_id == b,
    ensures
        task_in_board(db.tasks@, b, v),
        task_at(db, b, v) == db.tasks@[j],
{
    lemma_first_task_exists(db.tasks@, b, v);
    let f = choose|f: int| first_task_in_board(db.tasks@, b, v, f);
    assert(db.tasks@[f].id == db.tasks@[j].id);
}

/// Deleting a task with its subtasks leaves up to date each large task that
/// was so, other than the deleted task's parent.
pub proof fn lemma_remove_keeps_consistent(
    old: Db,
    mid: Db,
    marks: Seq<bool>,
    b: i64,
    t: i64,
    b2: i64,
    v: i64,
)
    requires
        well_formed(old),
        marks.len() == old.tasks@.len(),
        forall|i: int|
            0 <= i < old.tasks@.len() && #[trigger] marks[i] ==> (old.tasks@[i].id == t && old.tasks@[i].board_id == b)
                || has_marked_parent(old.tasks@, marks, i),
        task_in_board(old.tasks@, b, t),
        mid.tasks@ == unmarked_tasks(old.tasks@, marks),
        mid.dependencies@ == old.dependencies@.filter(dep_survives(old.tasks@, marks)),
        crate::task::large_consistent(old, b2, v),
        !(b2 == b && Some(v) == task_at(old, b, t).parent_id),
    ensures
        crate::task::large_consistent(mid, b2, v),
{
    let tasks = old.tasks@;
    lemma_unmarked_rows(tasks, marks);
    crate::board::lemma_unmarked_tasks_facts(tasks, marks);
    let nt = mid.tasks@;
    if marked_id(tasks, marks, v) {
        let jm = choose|j: int| 0 <= j < tasks.len() && j < marks.len() && marks[j] && #[trigger] tasks[j].id == v;
        if task_in_board(nt, b2, v) {
            let q = choose|q: int| 0 <= q < nt.len() && nt[q].id == v && nt[q].board_id == b2;
            let j = choose|j: int| 0 <= j < tasks.len() && !marks[j] && tasks[j] == #[trigger] nt[q];
            assert(tasks[j].id == tasks[jm].id);
        }
    } else {
        let tj = choose|j: int| 0 <= j < tasks.len() && tasks[j].id == t && tasks[j].board_id == b;
        lemma_task_at_unique(old, b, t, tj);
        assert forall|k: int| 0 <= k < tasks.len() && #[trigger] marks[k] implies !(tasks[k].board_id == b2
            && tasks[k].parent_id == Some(v)) by {
            if tasks[k].id == t && tasks[k].board_id == b {
                assert(tasks[k].id == tasks[tj].id);
            } else {
                assert(has_marked_parent(tasks, marks, k));
            }
        }
        lemma_unmarked_children(tasks, marks, b2, v);
        if task_in_board(tasks, b2, v) {
            let j = choose|j: int| 0 <= j < tasks.len() && tasks[j].id == v && tasks[j].board_id == b2;
            lemma_task_at_unique(old, b2, v, j);
            assert(!marks[j]);
            assert(nt.contains(tasks[j]));
            let q = choose|q: int| 0 <= q < nt.len() && nt[q] == tasks[j];
            lemma_task_at_unique(mid, b2, v, q);
            if task_at(old, b2, v).size@ == "large"@ {
                let deps = old.dependencies@;
                let keep = dep_survives(tasks, marks);
                assert forall|k: int| 0 <= k < deps.len() && (#[trigger] deps[k]).task_id == v implies keep(deps[k]) by {
                    lemma_deps_listed_has_row(deps, v, k);
                    let c = deps[k].depends_on;
                    crate::utils::lemma_sorted_ids(crate::task::child_ids(tasks, b2, v));
                    lemma_child_ids_rows(tasks, b2, v, c);
                    let r = choose|r: int| 0 <= r < tasks.len() && #[trigger] tasks[r].id == c && tasks[r].board_id == b2
                        && tasks[r].parent_id == Some(v);
                    if marked_id(tasks, marks, c) {
                        let rm = choose|j: int| 0 <= j < tasks.len() && j < marks.len() && marks[j] && #[trigger] tasks[j].id == c;
                        assert(tasks[rm].id == tasks[r].id);
                    }
                }
                lemma_deps_listed_keep(deps, keep, v);
            }
        } else {
            if task_in_board(nt, b2, v) {
                let q = choose|q: int| 0 <= q < nt.len() && nt[q].id == v && nt[q].board_id == b2;
                let j = choose|j: int| 0 <= j < tasks.len() && !marks[j] && tasks[j] == #[trigger] nt[q];
            }
        }
    }
}


/// A task with a new id is on no chain of parents from a task of the
/// tables it was added to.
pub proof fn lemma_new_row_off_chain(old: Db, inserted: Db, mid: Db, row: TaskRow, b: i64, p: i64)
    requires
        well_formed(old),
        forall|j: int| 0 <= j < old.tasks@.len() ==> old.tasks@[j].id != row.id,
        inserted.tasks@ == old.tasks@.push(row),
        task_exists(old.tasks@, p),
        crate::task::same_shape(inserted.tasks@, mid.tasks@),
    ensures
        !crate::task::on_chain(mid, b, p, row.id),
{
    lemma_insert_keeps_chain(old, inserted, row, b, p);
    crate::task::lemma_same_shape_on_chain(inserted, mid, b, p);
    if crate::task::on_chain(inserted, b, p, row.id) {
        let j = choose|j: nat| #[trigger] ancestor(inserted, b, p, j) == Some(row.id);
        assert(ancestor(old, b, p, j) == Some(row.id));
        lemma_chain_tasks(old, b, p, j);
        let q = choose|q: int| 0 <= q < old.tasks@.len() && #[trigger] old.tasks@[q].id == row.id;
    }
}


/// The dependency graph of board `b` in `db`, with an edge from the new
/// parent `np` of task `t` to `t` when there is one.
pub open spec fn moved_graph(db: Db, b: i64, t: i64, np: Option<i64>) -> spec_fn(i64, i64) -> bool {
    match np {
        Some(p) => crate::graph::with_edge(board_dep_edges(db, b), p, t),
        None => board_dep_edges(db, b),
    }
}

/// Moving task `t` (the row at `i`) under a new parent, keeping the
/// dependency rows of every other task, keeps the large tasks on the chain
/// from `s` fit to be brought up to date in [`moved_graph`], when that chain
/// was up to date and avoided `t` before, and `t` does not reach its new
/// parent through a graph that holds the new dependency rows.
pub proof fn lemma_move_keeps_fits(
    old: Db,
    new: Db,
    i: int,
    row: TaskRow,
    b: i64,
    s: i64,
    h: spec_fn(i64, i64) -> bool,
)
    requires
        well_formed(old),
        well_formed(new),
        0 <= i < old.tasks@.len(),
        row.id == old.tasks@[i].id,
        row.board_id == old.tasks@[i].board_id,
        new.tasks@ == old.tasks@.update(i, row),
        forall|k: nat| #[trigger] ancestor(old, b, s, k) != Some(row.id),
        forall|m: int|
            0 <= m < old.dependencies@.len() && old.dependencies@[m].task_id != row.id
                ==> new.dependencies@.contains(#[trigger] old.dependencies@[m]),
        crate::task::chain_up_to_date(old, b, s),
        forall|x: i64, y: i64| #[trigger] board_dep_edges(new, b)(x, y) ==> h(x, y),
        row.parent_id matches Some(p) ==> !reaches(h, row.id, p),
    ensures
        acyclic(moved_graph(new, b, row.id, row.parent_id)),
        crate::task::edges_within(new, b, moved_graph(new, b, row.id, row.parent_id)),
        crate::task::children_edges_in(new, b, s, moved_graph(new, b, row.id, row.parent_id)),
{
    let t = row.id;
    let g = board_dep_edges(old, b);
    let e = board_dep_edges(new, b);
    let mg = moved_graph(new, b, t, row.parent_id);
    crate::task::lemma_up_to_date_fits(old, b, s);
    assert(acyclic(e));
    if let Some(p) = row.parent_id {
        if reaches(e, t, p) {
            let q = choose|q: Seq<i64>| #[trigger] is_path(e, q, t, p);
            lemma_path_sub(e, h, q, t, p);
        }
        crate::graph::lemma_with_edge_acyclic(e, p, t);
    }
    assert(crate::task::edges_within(new, b, mg));
    lemma_update_keeps_chain(old, new, i, row, b, s);
    assert forall|k: nat, c: i64|
        #[trigger] ancestor(new, b, s, k) is Some && is_large(new, b, ancestor(new, b, s, k)->0)
            && #[trigger] crate::task::child_ids(new.tasks@, b, ancestor(new, b, s, k)->0).contains(c)
            implies mg(ancestor(new, b, s, k)->0, c) by {
        let v = ancestor(new, b, s, k)->0;
        assert(ancestor(old, b, s, k) == Some(v));
        assert(v != t);
        lemma_task_at_update(old, new, i, row, b, v);
        assert(is_large(old, b, v));
        lemma_child_ids_rows(new.tasks@, b, v, c);
        let r = choose|r: int| 0 <= r < new.tasks@.len() && #[trigger] new.tasks@[r].id == c
            && new.tasks@[r].board_id == b && new.tasks@[r].parent_id == Some(v);
        if r != i {
            assert(old.tasks@[r].id == c && old.tasks@[r].board_id == b && old.tasks@[r].parent_id == Some(v));
            lemma_child_ids_rows(old.tasks@, b, v, c);
            assert(crate::task::child_ids(old.tasks@, b, ancestor(old, b, s, k)->0).contains(c));
            assert(g(v, c));
            let m = choose|m: int|
                0 <= m < old.dependencies@.len() && m < old.dependencies@.len()
                    && #[trigger] old.dependencies@[m].task_id == v && old.dependencies@[m].depends_on == c
                    && task_in_board(old.tasks@, b, v);
            let d = old.dependencies@[m];
            assert(new.dependencies@.contains(d));
            let m2 = choose|m2: int| 0 <= m2 < new.dependencies@.len() && new.dependencies@[m2] == d;
            assert(dep_row_in(new, b, new.dependencies@.len() as int, v, c));
        } else {
            assert(row.parent_id == Some(v));
            assert(c == t);
        }
    }
}

} // verus!
