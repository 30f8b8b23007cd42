//! The rules of tasks: dependencies without cycles, parents without
//! cycles, notes for status changes, and large tasks whose dependencies and
//! status follow their subtasks.
use vstd::prelude::*;

use std::collections::HashMap;

use crate::error::{app_err, app_err_str, fails_with, CmdError};
use crate::graph::{
    acyclic, graph_edges, has_path, is_edge, is_path, lemma_path_avoiding, lemma_path_concat,
    lemma_path_sub, lemma_subpath, reaches, step_ok,
};
use crate::models::Task;
use crate::store::{
    find_task_in_board, find_user_by_id, first_task_in_board, task_in_board, user_name_of, Db,
    Dependency, TaskRow,
};
use crate::text::{append_i64, append_str, int_decimal};
use crate::utils::{normalize_depends, sorted_ids, strictly_sorted};
use crate::wellformed::{
    lemma_well_formed_same_links, lemma_well_formed_set_dependencies, same_links, well_formed,
};

verus! {

broadcast use vstd::std_specs::hash::group_hash_axioms;

/// The message for a task that is not on the board.
pub open spec fn not_in_board_msg(task_id: i64, board_id: i64) -> Seq<char> {
    "task "@ + int_decimal(task_id as int) + " not in board "@ + int_decimal(board_id as int)
}

/// Checks that task `task_id` is on board `board_id`; a `dependency` error
/// when it is not.
pub fn ensure_task_in_board(db: &Db, board_id: i64, task_id: i64) -> (r: Result<(), CmdError>)
    ensures
        r is Ok <==> task_in_board(db.tasks@, board_id, task_id),
        r is Err ==> fails_with(r, "dependency"@, not_in_board_msg(task_id, board_id)),
{
    if find_task_in_board(&db.tasks, board_id, task_id).is_some() {
        Ok(())
    } else {
        let mut m = String::new();
        append_str(&mut m, "task ");
        append_i64(&mut m, task_id);
        append_str(&mut m, " not in board ");
        append_i64(&mut m, board_id);
        Err(app_err("dependency", m))
    }
}

/// Row `k` of `deps`, among the first `n`, says that `a`, a task on board
/// `board_id`, depends on `b`.
pub open spec fn dep_row_in(db: Db, board_id: i64, n: int, a: i64, b: i64) -> bool {
    exists|k: int|
        0 <= k < n && k < db.dependencies@.len() && #[trigger] db.dependencies@[k].task_id == a
            && db.dependencies@[k].depends_on == b && task_in_board(db.tasks@, board_id, a)
}

/// The dependencies of the tasks on board `board_id`, as edges.
pub open spec fn board_dep_edges(db: Db, board_id: i64) -> spec_fn(i64, i64) -> bool {
    |a: i64, b: i64| dep_row_in(db, board_id, db.dependencies@.len() as int, a, b)
}

/// The dependency graph of the tasks on board `board_id`: each task's
/// dependencies, from the dependency rows.
pub fn dependency_graph(db: &Db, board_id: i64) -> (g: HashMap<i64, Vec<i64>>)
    ensures
        graph_edges(g@) == board_dep_edges(*db, board_id),
{
    let mut g: HashMap<i64, Vec<i64>> = HashMap::new();
    let mut i: usize = 0;
    while i < db.dependencies.len()
        invariant
            i <= db.dependencies@.len(),
            forall|a: i64, b: i64| #![trigger graph_edges(g@)(a, b)]
                graph_edges(g@)(a, b) <==> dep_row_in(*db, board_id, i as int, a, b),
        decreases db.dependencies@.len() - i,
    {
        let a = db.dependencies[i].task_id;
        let b = db.dependencies[i].depends_on;
        let ghost before = g@;
        if find_task_in_board(&db.tasks, board_id, a).is_some() {
            let ghost va: Seq<i64> = if before.contains_key(a) {
                before[a]@
            } else {
                Seq::<i64>::empty()
            };
            match g.remove(&a) {
                Some(mut v) => {
                    assert(v@ == va);
                    v.push(b);
                    g.insert(a, v);
                },
                None => {
                    let mut v: Vec<i64> = Vec::new();
                    v.push(b);
                    g.insert(a, v);
                },
            }
            assert(g@.contains_key(a) && g@[a]@ == va.push(b));
            assert(forall|x: i64| x != a ==> (g@.contains_key(x) == before.contains_key(x)));
            assert(forall|x: i64| x != a && before.contains_key(x) ==> g@[x] == before[x]);
            assert(task_in_board(db.tasks@, board_id, a));
            proof {
                assert forall|x: i64, y: i64| #![trigger graph_edges(g@)(x, y)]
                    graph_edges(g@)(x, y) <==> dep_row_in(*db, board_id, i + 1, x, y) by {
                    if x == a {
                        if y == b {
                            assert(va.push(b)[va.len() as int] == b);
                            assert(db.dependencies@[i as int].task_id == x);
                            assert(dep_row_in(*db, board_id, i + 1, x, y));
                        } else {
                            assert(va.push(b).contains(y) == va.contains(y)) by {
                                if va.push(b).contains(y) {
                                    let j = choose|j: int| 0 <= j < va.len() + 1 && va.push(b)[j] == y;
                                    assert(va[j] == y);
                                }
                                if va.contains(y) {
                                    let j = choose|j: int| 0 <= j < va.len() && va[j] == y;
                                    assert(va.push(b)[j] == y);
                                }
                            }
                            assert(graph_edges(g@)(x, y) == graph_edges(before)(x, y));
                            if dep_row_in(*db, board_id, i + 1, x, y) {
                                let k = choose|k: int| 0 <= k < i + 1 && k < db.dependencies@.len() && #[trigger] db.dependencies@[k].task_id == x
                                    && db.dependencies@[k].depends_on == y && task_in_board(db.tasks@, board_id, x);
                                assert(k != i);
                                assert(dep_row_in(*db, board_id, i as int, x, y));
                            }
                            if dep_row_in(*db, board_id, i as int, x, y) {
                                let k = choose|k: int| 0 <= k < i && k < db.dependencies@.len() && #[trigger] db.dependencies@[k].task_id == x
                                    && db.dependencies@[k].depends_on == y && task_in_board(db.tasks@, board_id, x);
                                assert(dep_row_in(*db, board_id, i + 1, x, y));
                            }
                        }
                    } else {
                        assert(graph_edges(g@)(x, y) == graph_edges(before)(x, y));
                        if dep_row_in(*db, board_id, i + 1, x, y) {
                            let k = choose|k: int| 0 <= k < i + 1 && k < db.dependencies@.len() && #[trigger] db.dependencies@[k].task_id == x
                                && db.dependencies@[k].depends_on == y && task_in_board(db.tasks@, board_id, x);
                            assert(dep_row_in(*db, board_id, i as int, x, y));
                        }
                        if dep_row_in(*db, board_id, i as int, x, y) {
                            let k = choose|k: int| 0 <= k < i && k < db.dependencies@.len() && #[trigger] db.dependencies@[k].task_id == x
                                && db.dependencies@[k].depends_on == y && task_in_board(db.tasks@, board_id, x);
                            assert(dep_row_in(*db, board_id, i + 1, x, y));
                        }
                    }
                }
            }
        } else {
            proof {
                assert forall|x: i64, y: i64| #![trigger graph_edges(g@)(x, y)]
                    graph_edges(g@)(x, y) <==> dep_row_in(*db, board_id, i + 1, x, y) by {
                    if dep_row_in(*db, board_id, i + 1, x, y) {
                        let k = choose|k: int| 0 <= k < i + 1 && k < db.dependencies@.len() && #[trigger] db.dependencies@[k].task_id == x
                            && db.dependencies@[k].depends_on == y && task_in_board(db.tasks@, board_id, x);
                        assert(dep_row_in(*db, board_id, i as int, x, y));
                    }
                    if dep_row_in(*db, board_id, i as int, x, y) {
                        let k = choose|k: int| 0 <= k < i && k < db.dependencies@.len() && #[trigger] db.dependencies@[k].task_id == x
                            && db.dependencies@[k].depends_on == y && task_in_board(db.tasks@, board_id, x);
                        assert(dep_row_in(*db, board_id, i + 1, x, y));
                    }
                }
            }
        }
        i = i + 1;
    }
    proof {
        assert(graph_edges(g@) =~= board_dep_edges(*db, board_id));
    }
    g
}

/// `d` cannot be a dependency of task `task_id` on board `board_id`: it is
/// the task itself, or no task of the board.
pub open spec fn bad_dep(db: Db, board_id: i64, task_id: i64, d: i64) -> bool {
    d == task_id || !task_in_board(db.tasks@, board_id, d)
}

/// The position of the first id of `nd` that cannot be a dependency.
pub open spec fn first_bad(db: Db, board_id: i64, task_id: i64, nd: Seq<i64>) -> Option<int>
    decreases nd.len(),
{
    if nd.len() == 0 {
        None
    } else {
        match first_bad(db, board_id, task_id, nd.drop_last()) {
            Some(k) => Some(k),
            None => if bad_dep(db, board_id, task_id, nd.last()) {
                Some(nd.len() - 1)
            } else {
                None
            },
        }
    }
}

proof fn lemma_first_bad_prefix(db: Db, board_id: i64, task_id: i64, nd: Seq<i64>, i: int)
    requires
        0 <= i <= nd.len(),
        first_bad(db, board_id, task_id, nd.take(i)) is Some,
    ensures
        first_bad(db, board_id, task_id, nd) == first_bad(db, board_id, task_id, nd.take(i)),
    decreases nd.len() - i,
{
    if i < nd.len() {
        assert(nd.take(i + 1).drop_last() =~= nd.take(i));
        lemma_first_bad_prefix(db, board_id, task_id, nd, i + 1);
    } else {
        assert(nd.take(i) =~= nd);
    }
}

proof fn lemma_first_bad_facts(db: Db, board_id: i64, task_id: i64, nd: Seq<i64>)
    ensures
        first_bad(db, board_id, task_id, nd) matches Some(k) ==> 0 <= k < nd.len() && bad_dep(
            db,
            board_id,
            task_id,
            nd[k],
        ),
        first_bad(db, board_id, task_id, nd) is None ==> forall|k: int|
            0 <= k < nd.len() ==> !bad_dep(db, board_id, task_id, #[trigger] nd[k]),
    decreases nd.len(),
{
    if nd.len() > 0 {
        lemma_first_bad_facts(db, board_id, task_id, nd.drop_last());
        assert forall|k: int| 0 <= k < nd.len() - 1 implies nd.drop_last()[k] == nd[k] by {}
    }
}

/// The board's dependencies as edges, with those of task `task_id`
/// replaced by `deps`.
pub open spec fn edges_with(db: Db, board_id: i64, task_id: i64, deps: Seq<i64>) -> spec_fn(
    i64,
    i64,
) -> bool {
    |a: i64, b: i64|
        if a == task_id {
            deps.contains(b)
        } else {
            board_dep_edges(db, board_id)(a, b)
        }
}

/// What checking a new dependency list finds.
pub enum DepCheck {
    SelfDependency,
    NotInBoard(i64),
    Cycle,
    Fine,
}

/// The check of the dependency list `nd` (sorted, without repeats) for task
/// `task_id`: the first id that is the task itself or not on the board
/// decides; else a dependency from which the task can be reached closes a
/// cycle.
pub open spec fn dep_check(db: Db, board_id: i64, task_id: i64, nd: Seq<i64>) -> DepCheck {
    match first_bad(db, board_id, task_id, nd) {
        Some(k) => if nd[k] == task_id {
            DepCheck::SelfDependency
        } else {
            DepCheck::NotInBoard(nd[k])
        },
        None => if exists|k: int|
            0 <= k < nd.len() && reaches(edges_with(db, board_id, task_id, nd), #[trigger] nd[k], task_id) {
            DepCheck::Cycle
        } else {
            DepCheck::Fine
        },
    }
}

/// Adding the row of task `task_id` itself changes nothing in the check of
/// its dependency list: only its own id and the other rows take part.
pub proof fn lemma_dep_check_new_row(old: Db, new: Db, board_id: i64, task_id: i64, row: TaskRow, nd: Seq<i64>)
    requires
        new.tasks@ == old.tasks@.push(row),
        row.id == task_id,
        new.dependencies@ == old.dependencies@,
    ensures
        dep_check(new, board_id, task_id, nd) == dep_check(old, board_id, task_id, nd),
        edges_with(new, board_id, task_id, nd) == edges_with(old, board_id, task_id, nd),
{
    lemma_first_bad_new_row(old, new, board_id, task_id, row, nd);
    assert forall|a: i64, c: i64| a != task_id implies #[trigger] dep_row_in(
        new,
        board_id,
        new.dependencies@.len() as int,
        a,
        c,
    ) == dep_row_in(old, board_id, old.dependencies@.len() as int, a, c) by {
        if task_in_board(new.tasks@, board_id, a) {
            let j = choose|j: int| 0 <= j < new.tasks@.len() && new.tasks@[j].id == a && new.tasks@[j].board_id == board_id;
            assert(j < old.tasks@.len());
            assert(old.tasks@[j] == new.tasks@[j]);
        }
        if task_in_board(old.tasks@, board_id, a) {
            let j = choose|j: int| 0 <= j < old.tasks@.len() && old.tasks@[j].id == a && old.tasks@[j].board_id == board_id;
            assert(new.tasks@[j] == old.tasks@[j]);
        }
    }
    assert(edges_with(new, board_id, task_id, nd) =~= edges_with(old, board_id, task_id, nd));
}

proof fn lemma_first_bad_new_row(old: Db, new: Db, board_id: i64, task_id: i64, row: TaskRow, nd: Seq<i64>)
    requires
        new.tasks@ == old.tasks@.push(row),
        row.id == task_id,
    ensures
        first_bad(new, board_id, task_id, nd) == first_bad(old, board_id, task_id, nd),
    decreases nd.len(),
{
    if nd.len() > 0 {
        lemma_first_bad_new_row(old, new, board_id, task_id, row, nd.drop_last());
        let d = nd.last();
        if d != task_id {
            if task_in_board(new.tasks@, board_id, d) {
                let j = choose|j: int| 0 <= j < new.tasks@.len() && new.tasks@[j].id == d && new.tasks@[j].board_id == board_id;
                assert(j < old.tasks@.len());
                assert(old.tasks@[j] == new.tasks@[j]);
            }
            if task_in_board(old.tasks@, board_id, d) {
                let j = choose|j: int| 0 <= j < old.tasks@.len() && old.tasks@[j].id == d && old.tasks@[j].board_id == board_id;
                assert(new.tasks@[j] == old.tasks@[j]);
            }
        }
    }
}

/// Rows that keep their ids and boards, with the same dependency rows, give
/// every dependency list the same check.
pub proof fn lemma_dep_check_same_rows(old: Db, new: Db, board_id: i64, task_id: i64, nd: Seq<i64>)
    requires
        new.tasks@.len() == old.tasks@.len(),
        forall|j: int|
            0 <= j < old.tasks@.len() ==> (#[trigger] new.tasks@[j]).id == old.tasks@[j].id
                && new.tasks@[j].board_id == old.tasks@[j].board_id,
        new.dependencies@ == old.dependencies@,
    ensures
        dep_check(new, board_id, task_id, nd) == dep_check(old, board_id, task_id, nd),
        edges_with(new, board_id, task_id, nd) == edges_with(old, board_id, task_id, nd),
        board_dep_edges(new, board_id) == board_dep_edges(old, board_id),
{
    assert forall|d: i64| #[trigger] task_in_board(new.tasks@, board_id, d) == task_in_board(
        old.tasks@,
        board_id,
        d,
    ) by {
        if task_in_board(new.tasks@, board_id, d) {
            let j = choose|j: int| 0 <= j < new.tasks@.len() && new.tasks@[j].id == d && new.tasks@[j].board_id == board_id;
            assert(old.tasks@[j].id == d);
        }
        if task_in_board(old.tasks@, board_id, d) {
            let j = choose|j: int| 0 <= j < old.tasks@.len() && old.tasks@[j].id == d && old.tasks@[j].board_id == board_id;
            assert(new.tasks@[j].id == d);
        }
    }
    lemma_first_bad_same_boards(old, new, board_id, task_id, nd);
    assert forall|a: i64, c: i64| #[trigger] dep_row_in(new, board_id, new.dependencies@.len() as int, a, c)
        == dep_row_in(old, board_id, old.dependencies@.len() as int, a, c) by {
        assert(task_in_board(new.tasks@, board_id, a) == task_in_board(old.tasks@, board_id, a));
    }
    assert(edges_with(new, board_id, task_id, nd) =~= edges_with(old, board_id, task_id, nd));
    assert(board_dep_edges(new, board_id) =~= board_dep_edges(old, board_id));
}

proof fn lemma_first_bad_same_boards(old: Db, new: Db, board_id: i64, task_id: i64, nd: Seq<i64>)
    requires
        forall|d: i64| #[trigger] task_in_board(new.tasks@, board_id, d) == task_in_board(
            old.tasks@,
            board_id,
            d,
        ),
    ensures
        first_bad(new, board_id, task_id, nd) == first_bad(old, board_id, task_id, nd),
    decreases nd.len(),
{
    if nd.len() > 0 {
        lemma_first_bad_same_boards(old, new, board_id, task_id, nd.drop_last());
        assert(task_in_board(new.tasks@, board_id, nd.last()) == task_in_board(old.tasks@, board_id, nd.last()));
    }
}

/// Keeps the dependency rows of tasks other than `task_id`.
pub open spec fn deps_of_others(task_id: i64) -> spec_fn(Dependency) -> bool {
    |d: Dependency| d.task_id != task_id
}

/// The dependency rows of `task_id` on the tasks `nd`.
pub open spec fn dep_rows(task_id: i64, nd: Seq<i64>) -> Seq<Dependency> {
    nd.map_values(|d: i64| Dependency { task_id, depends_on: d })
}

/// Makes task `task_id` depend exactly on the ids of `dep_ids`, taken sorted
/// and without repeats. A dependency on the task itself, on a task of
/// another board, or one that closes a cycle of dependencies is a
/// `dependency` error.
#[verifier::loop_isolation(false)]
pub fn set_dependencies(
    db: &mut Db,
    board_id: i64,
    task_id: i64,
    dep_ids: &Vec<i64>,
) -> (r: Result<(), CmdError>)
    ensures
        r is Err ==> *final(db) == *old(db),
        ({
            let nd = sorted_ids(dep_ids@);
            match dep_check(*old(db), board_id, task_id, nd) {
                DepCheck::SelfDependency => fails_with(
                    r,
                    "dependency"@,
                    "self dependency is not allowed"@,
                ),
                DepCheck::NotInBoard(d) => fails_with(
                    r,
                    "dependency"@,
                    not_in_board_msg(d, board_id),
                ),
                DepCheck::Cycle => fails_with(r, "dependency"@, "cycle detected"@),
                DepCheck::Fine => {
                    &&& r is Ok
                    &&& final(db).dependencies@ == old(db).dependencies@.filter(
                        deps_of_others(task_id),
                    ) + dep_rows(task_id, nd)
                    &&& final(db).users@ == old(db).users@
                    &&& final(db).boards@ == old(db).boards@
                    &&& final(db).members@ == old(db).members@
                    &&& final(db).permissions@ == old(db).permissions@
                    &&& final(db).tasks@ == old(db).tasks@
                    &&& final(db).notes@ == old(db).notes@
                },
            }
        }),
        r is Ok && well_formed(*old(db)) && task_in_board(old(db).tasks@, board_id, task_id)
            ==> well_formed(*final(db)),
{
    let mut copy: Vec<i64> = Vec::new();
    let mut i: usize = 0;
    while i < dep_ids.len()
        invariant
            i <= dep_ids@.len(),
            copy@ == dep_ids@.take(i as int),
        decreases dep_ids@.len() - i,
    {
        copy.push(dep_ids[i]);
        assert(copy@ =~= dep_ids@.take(i + 1));
        i = i + 1;
    }
    assert(copy@ =~= dep_ids@);
    let deps = normalize_depends(copy);
    let ghost nd = deps@;
    let mut i: usize = 0;
    assert(nd.take(0) =~= Seq::<i64>::empty());
    while i < deps.len()
        invariant
            i <= deps@.len(),
            nd == deps@,
            first_bad(*db, board_id, task_id, nd.take(i as int)) is None,
        decreases deps@.len() - i,
    {
        assert(nd.take(i + 1).drop_last() =~= nd.take(i as int));
        if deps[i] == task_id {
            proof {
                lemma_first_bad_prefix(*db, board_id, task_id, nd, i + 1);
            }
            return Err(app_err_str("dependency", "self dependency is not allowed"));
        }
        if find_task_in_board(&db.tasks, board_id, deps[i]).is_none() {
            proof {
                lemma_first_bad_prefix(*db, board_id, task_id, nd, i + 1);
            }
            let mut m = String::new();
            append_str(&mut m, "task ");
            append_i64(&mut m, deps[i]);
            append_str(&mut m, " not in board ");
            append_i64(&mut m, board_id);
            return Err(app_err("dependency", m));
        }
        i = i + 1;
    }
    assert(nd.take(deps@.len() as int) =~= nd);
    let mut graph = dependency_graph(db, board_id);
    let mut own: Vec<i64> = Vec::new();
    let mut i: usize = 0;
    while i < deps.len()
        invariant
            i <= deps@.len(),
            own@ == deps@.take(i as int),
        decreases deps@.len() - i,
    {
        own.push(deps[i]);
        assert(own@ =~= deps@.take(i + 1));
        i = i + 1;
    }
    assert(own@ =~= deps@);
    let ghost g0 = graph@;
    graph.insert(task_id, own);
    proof {
        assert(graph_edges(graph@) =~= edges_with(*db, board_id, task_id, nd)) by {
            assert forall|a: i64, b: i64| #[trigger] graph_edges(graph@)(a, b) == edges_with(*db, board_id, task_id, nd)(a, b) by {
                if a != task_id {
                    assert(graph_edges(graph@)(a, b) == graph_edges(g0)(a, b));
                }
            }
        }
    }
    let mut k: usize = 0;
    while k < deps.len()
        invariant
            k <= deps@.len(),
            nd == deps@,
            graph_edges(graph@) == edges_with(*db, board_id, task_id, nd),
            forall|j: int| 0 <= j < k ==> !reaches(edges_with(*db, board_id, task_id, nd), #[trigger] nd[j], task_id),
        decreases deps@.len() - k,
    {
        if has_path(&graph, deps[k], task_id) {
            proof {
                assert(reaches(edges_with(*db, board_id, task_id, nd), nd[k as int], task_id));
            }
            return Err(app_err_str("dependency", "cycle detected"));
        }
        k = k + 1;
    }
    let ghost pred = deps_of_others(task_id);
    let mut rows: Vec<Dependency> = Vec::new();
    let mut i: usize = 0;
    assert(db.dependencies@.take(0) =~= Seq::<Dependency>::empty());
    while i < db.dependencies.len()
        invariant
            i <= db.dependencies@.len(),
            pred == deps_of_others(task_id),
            rows@ == db.dependencies@.take(i as int).filter(pred),
        decreases db.dependencies@.len() - i,
    {
        reveal_with_fuel(Seq::<_>::filter, 1);
        assert(db.dependencies@.take(i + 1).drop_last() =~= db.dependencies@.take(i as int));
        let d = &db.dependencies[i];
        if d.task_id != task_id {
            rows.push(Dependency { task_id: d.task_id, depends_on: d.depends_on });
        }
        i = i + 1;
    }
    assert(db.dependencies@.take(db.dependencies@.len() as int) =~= db.dependencies@);
    let ghost kept = rows@;
    let mut i: usize = 0;
    while i < deps.len()
        invariant
            i <= deps@.len(),
            nd == deps@,
            rows@ == kept + dep_rows(task_id, nd.take(i as int)),
        decreases deps@.len() - i,
    {
        rows.push(Dependency { task_id, depends_on: deps[i] });
        assert(dep_rows(task_id, nd.take(i + 1)) =~= dep_rows(task_id, nd.take(i as int)).push(
            Dependency { task_id, depends_on: nd[i as int] },
        ));
        i = i + 1;
    }
    assert(nd.take(deps@.len() as int) =~= nd);
    db.dependencies = rows;
    proof {
        lemma_first_bad_facts(*old(db), board_id, task_id, nd);
        if well_formed(*old(db)) && task_in_board(old(db).tasks@, board_id, task_id) {
            lemma_well_formed_set_dependencies(*old(db), *db, board_id, task_id, nd);
        }
    }
    Ok(())
}

/// The new dependency edges of a board are among those that
/// [`dep_check`] examined.
pub proof fn lemma_new_edges_checked(old: Db, new: Db, board_id: i64, task_id: i64, nd: Seq<i64>)
    requires
        new.tasks@ == old.tasks@,
        new.dependencies@ == old.dependencies@.filter(deps_of_others(task_id)) + dep_rows(task_id, nd),
    ensures
        forall|x: i64, y: i64| #[trigger] board_dep_edges(new, board_id)(x, y) ==> edges_with(old, board_id, task_id, nd)(x, y),
{
    let kept = old.dependencies@.filter(deps_of_others(task_id));
    broadcast use vstd::seq_lib::group_filter_ensures;

    assert forall|x: i64, y: i64| #[trigger] board_dep_edges(new, board_id)(x, y) implies edges_with(old, board_id, task_id, nd)(x, y) by {
        let k = choose|k: int|
            0 <= k < new.dependencies@.len() && k < new.dependencies@.len() && #[trigger] new.dependencies@[k].task_id == x
                && new.dependencies@[k].depends_on == y && task_in_board(new.tasks@, board_id, x);
        if k < kept.len() {
            assert(new.dependencies@[k] == kept[k]);
            assert(kept.contains(kept[k]));
            old.dependencies@.lemma_filter_contains_rev(deps_of_others(task_id), kept[k]);
            assert(old.dependencies@.contains(kept[k]));
            let j = choose|j: int| 0 <= j < old.dependencies@.len() && old.dependencies@[j] == kept[k];
            assert(x != task_id);
            assert(dep_row_in(old, board_id, old.dependencies@.len() as int, x, y));
        } else {
            let j = k - kept.len();
            assert(new.dependencies@[k] == dep_rows(task_id, nd)[j]);
            assert(x == task_id);
            assert(nd[j] == y);
            assert(nd.contains(y));
        }
    }
}

/// Dependencies never close a cycle: when the dependencies of a board had
/// no cycle and [`set_dependencies`] accepts a task's new dependencies, the
/// dependencies that it writes have none either.
pub proof fn law_set_dependencies_keeps_acyclic(old: Db, new: Db, board_id: i64, task_id: i64, nd: Seq<i64>)
    requires
        acyclic(board_dep_edges(old, board_id)),
        dep_check(old, board_id, task_id, nd) is Fine,
        new.tasks@ == old.tasks@,
        new.dependencies@ == old.dependencies@.filter(deps_of_others(task_id)) + dep_rows(task_id, nd),
    ensures
        acyclic(board_dep_edges(new, board_id)),
{
    let g = board_dep_edges(old, board_id);
    let e = edges_with(old, board_id, task_id, nd);
    let h = board_dep_edges(new, board_id);
    lemma_new_edges_checked(old, new, board_id, task_id, nd);
    assert forall|x: i64, y: i64| #[trigger] is_edge(h, x, y) implies !reaches(h, y, x) by {
        if reaches(h, y, x) {
            let p = choose|p: Seq<i64>| #[trigger] is_path(h, p, y, x);
            lemma_path_sub(h, e, p, y, x);
            assert(e(x, y));
            if x == task_id {
                let k = choose|k: int| 0 <= k < nd.len() && nd[k] == y;
                assert(reaches(e, nd[k], task_id));
            } else if exists|i: int| 0 <= i < p.len() - 1 && p[i] == task_id {
                let i = choose|i: int| 0 <= i < p.len() - 1 && p[i] == task_id;
                assert(step_ok(e, p, i));
                let d = p[i + 1];
                assert(nd.contains(d));
                let k = choose|k: int| 0 <= k < nd.len() && nd[k] == d;
                lemma_subpath(e, p, y, x, i + 1, p.len() - 1);
                lemma_subpath(e, p, y, x, 0, i);
                let back = p.subrange(0, i + 1);
                let ex = seq![x, y];
                assert(is_path(e, ex, x, y)) by {
                    assert forall|j: int| 0 <= j < ex.len() - 1 implies #[trigger] step_ok(e, ex, j) by {}
                }
                lemma_path_concat(e, p.subrange(i + 1, p.len() as int), ex, d, x, y);
                lemma_path_concat(e, p.subrange(i + 1, p.len() as int) + ex.drop_first(), back, d, y, task_id);
                assert(reaches(e, nd[k], task_id));
            } else {
                lemma_path_avoiding(e, g, task_id, p, y, x);
                assert(is_edge(g, x, y));
                assert(reaches(g, y, x));
            }
        }
    }
}

/// The parent of task `id` on board `board_id`: `None` for a task without
/// a parent, and for a task that is not on the board.
pub open spec fn parent_in_board(db: Db, board_id: i64, id: i64) -> Option<i64> {
    if task_in_board(db.tasks@, board_id, id) {
        db.tasks@[choose|i: int| first_task_in_board(db.tasks@, board_id, id, i)].parent_id
    } else {
        None
    }
}

/// The `n`-th task up the chain of parents from `start` (`start` itself for
/// `n == 0`), or `None` once the chain has ended.
pub open spec fn ancestor(db: Db, board_id: i64, start: i64, n: nat) -> Option<i64>
    decreases n,
{
    if n == 0 {
        Some(start)
    } else {
        match ancestor(db, board_id, start, (n - 1) as nat) {
            Some(c) => parent_in_board(db, board_id, c),
            None => None,
        }
    }
}

/// The chain of parents from `start` ends without passing `task_id`.
pub open spec fn chain_ends_before(db: Db, board_id: i64, start: i64, task_id: i64) -> bool {
    exists|n: nat|
        #[trigger] ancestor(db, board_id, start, n) is None && forall|k: nat|
            k < n ==> ancestor(db, board_id, start, k) != Some(task_id)
}

/// Every task of a board has a first position.
pub proof fn lemma_first_task_exists(tasks: Seq<TaskRow>, board_id: i64, id: i64)
    requires
        task_in_board(tasks, board_id, id),
    ensures
        exists|i: int| first_task_in_board(tasks, board_id, id, i),
    decreases tasks.len(),
{
    let d = tasks.drop_last();
    assert(forall|k: int| 0 <= k < d.len() ==> d[k] == tasks[k]);
    if task_in_board(d, board_id, id) {
        lemma_first_task_exists(d, board_id, id);
        let i = choose|i: int| first_task_in_board(d, board_id, id, i);
        assert(first_task_in_board(tasks, board_id, id, i));
    } else {
        let j = choose|j: int| 0 <= j < tasks.len() && tasks[j].id == id && tasks[j].board_id == board_id;
        if j < tasks.len() - 1 {
            assert(d[j].id == id && d[j].board_id == board_id);
        }
        assert(first_task_in_board(tasks, board_id, id, tasks.len() - 1));
    }
}

/// The first position of a task of a board is unique.
pub proof fn lemma_first_task_unique(tasks: Seq<TaskRow>, board_id: i64, id: i64, i: int, j: int)
    requires
        first_task_in_board(tasks, board_id, id, i),
        first_task_in_board(tasks, board_id, id, j),
    ensures
        i == j,
{
}

/// The parent of task `id` on board `board_id`.
pub fn parent_of(db: &Db, board_id: i64, id: i64) -> (r: Option<i64>)
    ensures
        r == parent_in_board(*db, board_id, id),
{
    match find_task_in_board(&db.tasks, board_id, id) {
        Some(i) => {
            proof {
                let k = choose|k: int| first_task_in_board(db.tasks@, board_id, id, k);
                lemma_first_task_unique(db.tasks@, board_id, id, i as int, k);
            }
            db.tasks[i].parent_id
        },
        None => None,
    }
}

/// The index of the row of task `id` on board `board_id`: the row that
/// [`task_at`] gives.
pub fn find_task_in_board_at(db: &Db, board_id: i64, id: i64) -> (r: Option<usize>)
    ensures
        r is Some <==> task_in_board(db.tasks@, board_id, id),
        r matches Some(i) ==> i < db.tasks@.len() && db.tasks@[i as int] == task_at(*db, board_id, id)
            && first_task_in_board(db.tasks@, board_id, id, i as int),
{
    match find_task_in_board(&db.tasks, board_id, id) {
        Some(i) => {
            proof {
                let k = choose|k: int| first_task_in_board(db.tasks@, board_id, id, k);
                lemma_first_task_unique(db.tasks@, board_id, id, i as int, k);
            }
            Some(i)
        },
        None => None,
    }
}

pub proof fn lemma_ancestor_none_stays(db: Db, board_id: i64, start: i64, n: nat, m: nat)
    requires
        ancestor(db, board_id, start, n) is None,
        n <= m,
    ensures
        ancestor(db, board_id, start, m) is None,
    decreases m - n,
{
    if n < m {
        lemma_ancestor_none_stays(db, board_id, start, n, (m - 1) as nat);
    }
}

proof fn lemma_ancestor_shift(db: Db, board_id: i64, start: i64, j: nat, i: nat, t: nat)
    requires
        j < i,
        ancestor(db, board_id, start, j) == ancestor(db, board_id, start, i),
    ensures
        ancestor(db, board_id, start, j + t) == ancestor(db, board_id, start, i + t),
    decreases t,
{
    if t > 0 {
        lemma_ancestor_shift(db, board_id, start, j, i, (t - 1) as nat);
        assert(ancestor(db, board_id, start, j + t) == match ancestor(db, board_id, start, (j + t - 1) as nat) {
            Some(c) => parent_in_board(db, board_id, c),
            None => None,
        });
        assert(ancestor(db, board_id, start, i + t) == match ancestor(db, board_id, start, (i + t - 1) as nat) {
            Some(c) => parent_in_board(db, board_id, c),
            None => None,
        });
    }
}

/// Once the chain of parents repeats a task, it never ends.
pub proof fn lemma_ancestor_cycle_never_ends(db: Db, board_id: i64, start: i64, j: nat, i: nat, m: nat)
    requires
        j < i,
        ancestor(db, board_id, start, j) == ancestor(db, board_id, start, i),
        forall|k: nat| k <= i ==> (#[trigger] ancestor(db, board_id, start, k)) is Some,
    ensures
        ancestor(db, board_id, start, m) is Some,
    decreases m,
{
    if m > i {
        let p = (i - j) as nat;
        lemma_ancestor_shift(db, board_id, start, j, i, (m - i) as nat);
        assert(j + (m - i) == m - p);
        lemma_ancestor_cycle_never_ends(db, board_id, start, j, i, (m - p) as nat);
    }
}

/// Checks a new parent for task `task_id`: no parent is fine; else the
/// parent must not be the task itself, must be on the board, and its chain
/// of parents must end without passing the task. Each failure is a
/// `dependency` error.
#[verifier::loop_isolation(false)]
pub fn ensure_parent_assignment(db: &Db, board_id: i64, task_id: i64, parent_id: Option<i64>) -> (r:
    Result<(), CmdError>)
    ensures
        parent_id is None ==> r is Ok,
        parent_id matches Some(p) ==> {
            if p == task_id {
                fails_with(r, "dependency"@, "self parent is not allowed"@)
            } else if !task_in_board(db.tasks@, board_id, p) {
                fails_with(r, "dependency"@, not_in_board_msg(p, board_id))
            } else if !chain_ends_before(*db, board_id, p, task_id) {
                fails_with(r, "dependency"@, "parent cycle detected"@)
            } else {
                r is Ok
            }
        },
{
    let p = match parent_id {
        None => {
            return Ok(());
        },
        Some(p) => p,
    };
    if p == task_id {
        return Err(app_err_str("dependency", "self parent is not allowed"));
    }
    ensure_task_in_board(db, board_id, p)?;
    let ghost all_ids = crate::store::task_ids(db.tasks@).to_set();
    let mut seen: std::collections::HashSet<i64> = std::collections::HashSet::new();
    let mut cursor: Option<i64> = Some(p);
    let ghost mut n: nat = 0;
    proof {
        assert(ancestor(*db, board_id, p, 0) == Some(p));
    }
    while cursor.is_some()
        invariant
            cursor == ancestor(*db, board_id, p, n),
            forall|k: nat| k < n ==> (#[trigger] ancestor(*db, board_id, p, k)) is Some
                && ancestor(*db, board_id, p, k) != Some(task_id)
                && seen@.contains(ancestor(*db, board_id, p, k)->0),
            forall|x: i64| seen@.contains(x) ==> exists|k: nat| k < n && #[trigger] ancestor(*db, board_id, p, k) == Some(x),
            seen@.finite(),
            all_ids.finite(),
            all_ids == crate::store::task_ids(db.tasks@).to_set(),
        decreases all_ids.difference(seen@).len() + if cursor is Some { 1nat } else { 0nat },
    {
        let current = cursor.unwrap();
        if current == task_id {
            proof {
                assert forall|m: nat| #[trigger] ancestor(*db, board_id, p, m) is None implies exists|k: nat| k < m && ancestor(*db, board_id, p, k) == Some(task_id) by {
                    if m <= n {
                        if m < n {
                            assert(ancestor(*db, board_id, p, m) is Some);
                        }
                    }
                    assert(ancestor(*db, board_id, p, n) == Some(task_id));
                }
            }
            return Err(app_err_str("dependency", "parent cycle detected"));
        }
        let ghost before = seen@;
        if !seen.insert(current) {
            proof {
                let k = choose|k: nat| k < n && #[trigger] ancestor(*db, board_id, p, k) == Some(current);
                assert forall|m: nat| #[trigger] ancestor(*db, board_id, p, m) is None implies exists|k2: nat| k2 < m && ancestor(*db, board_id, p, k2) == Some(task_id) by {
                    assert forall|q: nat| q <= n implies (#[trigger] ancestor(*db, board_id, p, q)) is Some by {}
                    lemma_ancestor_cycle_never_ends(*db, board_id, p, k, n, m);
                }
            }
            return Err(app_err_str("dependency", "parent cycle detected"));
        }
        let next = parent_of(db, board_id, current);
        proof {
            if task_in_board(db.tasks@, board_id, current) {
                let j = choose|j: int| 0 <= j < db.tasks@.len() && db.tasks@[j].id == current && db.tasks@[j].board_id == board_id;
                assert(crate::store::task_ids(db.tasks@)[j] == current);
                assert(all_ids.contains(current));
                assert(all_ids.difference(seen@) =~= all_ids.difference(before).remove(current));
            } else {
                assert(next is None);
                assert(all_ids.difference(seen@).subset_of(all_ids.difference(before)));
                vstd::set_lib::lemma_len_subset(all_ids.difference(seen@), all_ids.difference(before));
            }
            assert(ancestor(*db, board_id, p, n + 1) == next);
        }
        cursor = next;
        proof {
            n = n + 1;
        }
    }
    proof {
        assert(ancestor(*db, board_id, p, n) is None);
        assert(chain_ends_before(*db, board_id, p, task_id));
    }
    Ok(())
}

/// A status change to `blocked` or `completed` needs a note.
pub open spec fn needs_note(status: Seq<char>) -> bool {
    status == "blocked"@ || status == "completed"@
}

/// Whether `a` equals `b`.
pub fn str_eq(a: &str, b: &str) -> (r: bool)
    ensures
        r == (a@ == b@),
{
    String::from_str(a) == String::from_str(b)
}

/// Whether a change to `status` needs a note: for `blocked` and `completed`.
pub fn status_requires_note(status: &str) -> (r: bool)
    ensures
        r == needs_note(status@),
{
    str_eq(status, "blocked") || str_eq(status, "completed")
}

/// Reads the note of a status change: none stays none; a note is trimmed,
/// and one that is only white space is an `input` error.
pub fn normalize_note(note: Option<String>) -> (r: Result<Option<String>, CmdError>)
    ensures
        note is None ==> (r matches Ok(n) && n is None),
        note matches Some(raw) ==> if crate::text::trim(raw@).len() == 0 {
            fails_with(r, "input"@, "--note cannot be empty"@)
        } else {
            r matches Ok(Some(t)) && t@ == crate::text::trim(raw@)
        },
{
    match note {
        None => Ok(None),
        Some(raw) => {
            let chars = crate::text::chars_of(raw.as_str());
            let t = crate::text::trim_chars(&chars);
            if t.len() == 0 {
                return Err(app_err_str("input", "--note cannot be empty"));
            }
            Ok(Some(crate::text::string_from_chars(&t)))
        },
    }
}

/// The first task with id `id`, on any board.
pub open spec fn first_task_with_id(tasks: Seq<TaskRow>, id: i64, i: int) -> bool {
    &&& 0 <= i < tasks.len()
    &&& tasks[i].id == id
    &&& forall|j: int| 0 <= j < i ==> tasks[j].id != id
}

/// The status of task `id`, if there is such a task.
pub open spec fn status_of(tasks: Seq<TaskRow>, id: i64) -> Option<Seq<char>> {
    if forall|j: int| 0 <= j < tasks.len() ==> tasks[j].id != id {
        None
    } else {
        Some(tasks[choose|i: int| first_task_with_id(tasks, id, i)].status@)
    }
}

/// The index of the first task with id `id`.
pub fn find_task_by_id(tasks: &Vec<TaskRow>, id: i64) -> (r: Option<usize>)
    ensures
        r matches Some(i) ==> first_task_with_id(tasks@, id, i as int) && status_of(tasks@, id)
            == Some(tasks@[i as int].status@),
        r is None ==> status_of(tasks@, id) is None,
{
    let mut i: usize = 0;
    while i < tasks.len()
        invariant
            i <= tasks@.len(),
            forall|j: int| 0 <= j < i ==> tasks@[j].id != id,
        decreases tasks@.len() - i,
    {
        if tasks[i].id == id {
            proof {
                let k = choose|k: int| first_task_with_id(tasks@, id, k);
                assert(first_task_with_id(tasks@, id, i as int));
                assert(k == i);
            }
            return Some(i);
        }
        i = i + 1;
    }
    None
}

/// The message for a status change that a dependency blocks.
pub open spec fn blocked_by_msg(task_id: i64, status: Seq<char>, dep: i64, dep_status: Seq<char>) -> Seq<char> {
    "task "@ + int_decimal(task_id as int) + " cannot move to "@ + status + " because dependency "@
        + int_decimal(dep as int) + " is "@ + dep_status
}

/// Task `d` is a dependency of `task_id`, among the first `n` dependency
/// rows, whose task exists and is not completed.
pub open spec fn open_dep_in(db: Db, task_id: i64, n: int, d: i64) -> bool {
    &&& exists|k: int|
        0 <= k < n && k < db.dependencies@.len() && #[trigger] db.dependencies@[k].task_id == task_id
            && db.dependencies@[k].depends_on == d
    &&& status_of(db.tasks@, d) is Some
    &&& status_of(db.tasks@, d)->0 != "completed"@
}

/// The smallest id of a dependency of `task_id` that is not completed, if
/// there is one.
pub open spec fn least_open_dep(db: Db, task_id: i64) -> Option<i64> {
    let n = db.dependencies@.len() as int;
    if exists|d: i64| open_dep_in(db, task_id, n, d) {
        Some(choose|d: i64| open_dep_in(db, task_id, n, d) && forall|e: i64| #[trigger] open_dep_in(db, task_id, n, e) ==> d <= e)
    } else {
        None
    }
}

/// A move to `in_progress` or `completed` needs every dependency
/// completed: the smallest dependency that is not is named in a
/// `dependency` error. Other statuses need nothing.
pub fn ensure_dependencies_completed(db: &Db, task_id: i64, status: &str) -> (r: Result<(), CmdError>)
    ensures
        !(status@ == "in_progress"@ || status@ == "completed"@) ==> r is Ok,
        (status@ == "in_progress"@ || status@ == "completed"@) ==> match least_open_dep(*db, task_id) {
            None => r is Ok,
            Some(d) => fails_with(
                r,
                "dependency"@,
                blocked_by_msg(task_id, status@, d, status_of(db.tasks@, d)->0),
            ),
        },
{
    if !str_eq(status, "in_progress") && !str_eq(status, "completed") {
        return Ok(());
    }
    let completed = String::from_str("completed");
    let mut best: Option<(i64, usize)> = None;
    let mut i: usize = 0;
    while i < db.dependencies.len()
        invariant
            i <= db.dependencies@.len(),
            completed@ == "completed"@,
            best is None ==> forall|e: i64| !open_dep_in(*db, task_id, i as int, e),
            best matches Some(p) ==> {
                &&& open_dep_in(*db, task_id, i as int, p.0)
                &&& p.1 < db.tasks@.len()
                &&& status_of(db.tasks@, p.0) == Some(db.tasks@[p.1 as int].status@)
                &&& forall|e: i64| #[trigger] open_dep_in(*db, task_id, i as int, e) ==> p.0 <= e
            },
        decreases db.dependencies@.len() - i,
    {
        let d = &db.dependencies[i];
        if d.task_id == task_id {
            match find_task_by_id(&db.tasks, d.depends_on) {
                Some(j) => {
                    if db.tasks[j].status != completed {
                        let better = match best {
                            None => true,
                            Some(p) => d.depends_on < p.0,
                        };
                        if better {
                            best = Some((d.depends_on, j));
                        }
                    }
                },
                None => {},
            }
        }
        proof {
            assert forall|e: i64| #[trigger] open_dep_in(*db, task_id, i + 1, e) implies open_dep_in(
                *db,
                task_id,
                i as int,
                e,
            ) || (db.dependencies@[i as int].task_id == task_id && db.dependencies@[i as int].depends_on == e) by {
                let k = choose|k: int|
                    0 <= k < i + 1 && k < db.dependencies@.len() && #[trigger] db.dependencies@[k].task_id == task_id
                        && db.dependencies@[k].depends_on == e;
                if k < i {
                    assert(open_dep_in(*db, task_id, i as int, e));
                }
            }
            assert forall|e: i64| #[trigger] open_dep_in(*db, task_id, i as int, e) implies open_dep_in(
                *db,
                task_id,
                i + 1,
                e,
            ) by {
                let k = choose|k: int|
                    0 <= k < i && k < db.dependencies@.len() && #[trigger] db.dependencies@[k].task_id == task_id
                        && db.dependencies@[k].depends_on == e;
                assert(0 <= k < i + 1);
            }
            if db.dependencies@[i as int].task_id == task_id && status_of(db.tasks@, db.dependencies@[i as int].depends_on) is Some
                && status_of(db.tasks@, db.dependencies@[i as int].depends_on)->0 != "completed"@ {
                assert(open_dep_in(*db, task_id, i + 1, db.dependencies@[i as int].depends_on));
            }
        }
        i = i + 1;
    }
    match best {
        None => {
            assert(least_open_dep(*db, task_id) is None);
            Ok(())
        },
        Some(p) => {
            proof {
                let n = db.dependencies@.len() as int;
                let c = choose|d: i64| open_dep_in(*db, task_id, n, d) && forall|e: i64| #[trigger] open_dep_in(*db, task_id, n, e) ==> d <= e;
                assert(open_dep_in(*db, task_id, n, p.0));
                assert(c <= p.0 && p.0 <= c);
            }
            let mut m = String::new();
            append_str(&mut m, "task ");
            append_i64(&mut m, task_id);
            append_str(&mut m, " cannot move to ");
            append_str(&mut m, status);
            append_str(&mut m, " because dependency ");
            append_i64(&mut m, p.0);
            append_str(&mut m, " is ");
            append_str(&mut m, db.tasks[p.1].status.as_str());
            Err(app_err("dependency", m))
        },
    }
}

/// The statuses of the subtasks of `parent_id` on board `board_id`, in
/// table order.
pub open spec fn child_statuses(tasks: Seq<TaskRow>, board_id: i64, parent_id: i64) -> Seq<Seq<char>>
    decreases tasks.len(),
{
    if tasks.len() == 0 {
        Seq::<Seq<char>>::empty()
    } else {
        let prev = child_statuses(tasks.drop_last(), board_id, parent_id);
        let t = tasks.last();
        if t.board_id == board_id && t.parent_id == Some(parent_id) {
            prev.push(t.status@)
        } else {
            prev
        }
    }
}

/// The ids of the subtasks of `parent_id` on board `board_id`, in table
/// order.
pub open spec fn child_ids(tasks: Seq<TaskRow>, board_id: i64, parent_id: i64) -> Seq<i64>
    decreases tasks.len(),
{
    if tasks.len() == 0 {
        Seq::<i64>::empty()
    } else {
        let prev = child_ids(tasks.drop_last(), board_id, parent_id);
        let t = tasks.last();
        if t.board_id == board_id && t.parent_id == Some(parent_id) {
            prev.push(t.id)
        } else {
            prev
        }
    }
}

/// The status of a large task with subtasks in the given statuses: pending
/// without subtasks; completed when all are completed; else blocked when
/// one is blocked; else in progress when one is in progress or completed;
/// else pending.
pub open spec fn derived_status(st: Seq<Seq<char>>) -> Seq<char> {
    if st.len() == 0 {
        "pending"@
    } else if forall|i: int| 0 <= i < st.len() ==> st[i] == "completed"@ {
        "completed"@
    } else if exists|i: int| 0 <= i < st.len() && st[i] == "blocked"@ {
        "blocked"@
    } else if exists|i: int| 0 <= i < st.len() && (st[i] == "in_progress"@ || st[i] == "completed"@) {
        "in_progress"@
    } else {
        "pending"@
    }
}

/// The ids of the subtasks of `parent_id` on board `board_id`.
pub fn child_ids_of(db: &Db, board_id: i64, parent_id: i64) -> (r: Vec<i64>)
    ensures
        r@ == child_ids(db.tasks@, board_id, parent_id),
{
    let mut out: Vec<i64> = Vec::new();
    let mut i: usize = 0;
    assert(db.tasks@.take(0) =~= Seq::<TaskRow>::empty());
    while i < db.tasks.len()
        invariant
            i <= db.tasks@.len(),
            out@ == child_ids(db.tasks@.take(i as int), board_id, parent_id),
        decreases db.tasks@.len() - i,
    {
        assert(db.tasks@.take(i + 1).drop_last() =~= db.tasks@.take(i as int));
        let t = &db.tasks[i];
        if t.board_id == board_id && t.parent_id == Some(parent_id) {
            out.push(t.id);
        }
        i = i + 1;
    }
    assert(db.tasks@.take(db.tasks@.len() as int) =~= db.tasks@);
    out
}

/// The status of a large task from those of its subtasks on the board.
pub fn derive_large_status(db: &Db, board_id: i64, task_id: i64) -> (r: String)
    ensures
        r@ == derived_status(child_statuses(db.tasks@, board_id, task_id)),
{
    let completed = String::from_str("completed");
    let in_progress = String::from_str("in_progress");
    let blocked = String::from_str("blocked");
    proof {
        reveal_strlit("completed");
        reveal_strlit("in_progress");
        reveal_strlit("blocked");
        assert("completed"@[0] == 'c');
        assert("in_progress"@[0] == 'i');
        assert("blocked"@[0] == 'b');
        assert("completed"@ != "in_progress"@);
        assert("completed"@ != "blocked"@);
        assert("in_progress"@ != "blocked"@);
    }
    let mut has_children = false;
    let mut all_completed = true;
    let mut has_blocked = false;
    let mut has_in_progress = false;
    let mut has_completed = false;
    let ghost mut st: Seq<Seq<char>> = Seq::empty();
    let mut i: usize = 0;
    assert(db.tasks@.take(0) =~= Seq::<TaskRow>::empty());
    while i < db.tasks.len()
        invariant
            i <= db.tasks@.len(),
            completed@ == "completed"@,
            in_progress@ == "in_progress"@,
            blocked@ == "blocked"@,
            "completed"@ != "in_progress"@,
            "completed"@ != "blocked"@,
            "in_progress"@ != "blocked"@,
            st == child_statuses(db.tasks@.take(i as int), board_id, task_id),
            has_children == (st.len() > 0),
            all_completed == (forall|k: int| 0 <= k < st.len() ==> st[k] == "completed"@),
            has_blocked == (exists|k: int| 0 <= k < st.len() && st[k] == "blocked"@),
            has_in_progress == (exists|k: int| 0 <= k < st.len() && st[k] == "in_progress"@),
            has_completed == (exists|k: int| 0 <= k < st.len() && st[k] == "completed"@),
        decreases db.tasks@.len() - i,
    {
        assert(db.tasks@.take(i + 1).drop_last() =~= db.tasks@.take(i as int));
        let t = &db.tasks[i];
        if t.board_id == board_id && t.parent_id == Some(task_id) {
            let ghost prev = st;
            proof {
                st = st.push(t.status@);
            }
            has_children = true;
            if t.status == completed {
                has_completed = true;
                assert(st[st.len() - 1] == "completed"@);
            } else if t.status == in_progress {
                has_in_progress = true;
                all_completed = false;
                assert(st[st.len() - 1] == "in_progress"@);
            } else if t.status == blocked {
                has_blocked = true;
                all_completed = false;
                assert(st[st.len() - 1] == "blocked"@);
            } else {
                all_completed = false;
                assert(st[st.len() - 1] != "completed"@);
            }
            proof {
                assert forall|k: int| 0 <= k < prev.len() implies st[k] == prev[k] by {}
                if all_completed {
                    assert forall|k: int| 0 <= k < st.len() implies st[k] == "completed"@ by {
                        if k < prev.len() {
                            assert(st[k] == prev[k]);
                        }
                    }
                }
                if has_blocked != (exists|k: int| 0 <= k < st.len() && st[k] == "blocked"@) {
                    if has_blocked {
                        let k = choose|k: int| 0 <= k < prev.len() && prev[k] == "blocked"@;
                        assert(st[k] == "blocked"@);
                    } else {
                        let k = choose|k: int| 0 <= k < st.len() && st[k] == "blocked"@;
                        assert(k == prev.len() || prev[k] == "blocked"@);
                    }
                }
                if has_in_progress != (exists|k: int| 0 <= k < st.len() && st[k] == "in_progress"@) {
                    if has_in_progress {
                        let k = choose|k: int| 0 <= k < prev.len() && prev[k] == "in_progress"@;
                        assert(st[k] == "in_progress"@);
                    } else {
                        let k = choose|k: int| 0 <= k < st.len() && st[k] == "in_progress"@;
                        assert(k == prev.len() || prev[k] == "in_progress"@);
                    }
                }
                if has_completed != (exists|k: int| 0 <= k < st.len() && st[k] == "completed"@) {
                    if has_completed {
                        let k = choose|k: int| 0 <= k < prev.len() && prev[k] == "completed"@;
                        assert(st[k] == "completed"@);
                    } else {
                        let k = choose|k: int| 0 <= k < st.len() && st[k] == "completed"@;
                        assert(k == prev.len() || prev[k] == "completed"@);
                    }
                }
                if !all_completed && (forall|k: int| 0 <= k < st.len() ==> st[k] == "completed"@) {
                    if st[st.len() - 1] == "completed"@ {
                        let k = choose|k: int| 0 <= k < prev.len() && prev[k] != "completed"@;
                        assert(st[k] != "completed"@);
                    }
                }
            }
        }
        i = i + 1;
    }
    assert(db.tasks@.take(db.tasks@.len() as int) =~= db.tasks@);
    let mut r = String::new();
    if !has_children {
        append_str(&mut r, "pending");
    } else if all_completed {
        append_str(&mut r, "completed");
    } else if has_blocked {
        append_str(&mut r, "blocked");
    } else if has_in_progress || has_completed {
        append_str(&mut r, "in_progress");
    } else {
        append_str(&mut r, "pending");
    }
    proof {
        if has_children && !all_completed && !has_blocked && (has_in_progress || has_completed) {
            if has_in_progress {
                let k = choose|k: int| 0 <= k < st.len() && st[k] == "in_progress"@;
                assert(st[k] == "in_progress"@ || st[k] == "completed"@);
            } else {
                let k = choose|k: int| 0 <= k < st.len() && st[k] == "completed"@;
                assert(st[k] == "in_progress"@ || st[k] == "completed"@);
            }
        }
        if has_children && !all_completed && !has_blocked && !(has_in_progress || has_completed) {
            assert forall|k: int| 0 <= k < st.len() implies !(st[k] == "in_progress"@ || st[k] == "completed"@) by {
                if st[k] == "in_progress"@ {
                    assert(exists|k2: int| 0 <= k2 < st.len() && st[k2] == "in_progress"@);
                }
                if st[k] == "completed"@ {
                    assert(exists|k2: int| 0 <= k2 < st.len() && st[k2] == "completed"@);
                }
            }
        }
    }
    r
}

/// The row of task `id` on board `board_id` (its first row there).
pub open spec fn task_at(db: Db, board_id: i64, id: i64) -> TaskRow {
    db.tasks@[choose|i: int| first_task_in_board(db.tasks@, board_id, id, i)]
}

/// The tasks on which `task_id` depends, as its dependency rows list them.
pub open spec fn deps_listed(deps: Seq<Dependency>, task_id: i64) -> Seq<i64>
    decreases deps.len(),
{
    if deps.len() == 0 {
        Seq::<i64>::empty()
    } else {
        let prev = deps_listed(deps.drop_last(), task_id);
        if deps.last().task_id == task_id {
            prev.push(deps.last().depends_on)
        } else {
            prev
        }
    }
}

/// A large task of the board is up to date: it depends exactly on its
/// subtasks, and its status is the one its subtasks' statuses give.
pub open spec fn large_consistent(db: Db, board_id: i64, v: i64) -> bool {
    task_in_board(db.tasks@, board_id, v) && task_at(db, board_id, v).size@ == "large"@ ==> {
        &&& task_at(db, board_id, v).status@ == derived_status(
            child_statuses(db.tasks@, board_id, v),
        )
        &&& deps_listed(db.dependencies@, v) == sorted_ids(child_ids(db.tasks@, board_id, v))
    }
}

/// Every large task of every board is up to date.
pub open spec fn large_tasks_consistent(db: Db) -> bool {
    forall|b: i64, v: i64| #[trigger] large_consistent(db, b, v)
}

/// Tables on which every large task is up to date have every chain up to
/// date.
pub proof fn lemma_consistent_chain(db: Db, board_id: i64, start: i64)
    requires
        large_tasks_consistent(db),
    ensures
        chain_up_to_date(db, board_id, start),
{
    assert forall|k: nat| up_to_date(db, board_id, #[trigger] ancestor(db, board_id, start, k)) by {
        if let Some(v) = ancestor(db, board_id, start, k) {
            assert(large_consistent(db, board_id, v));
        }
    }
}

/// `new` is `old` with at most the status and the updater of the row at
/// `idx` changed.
pub open spec fn only_status_at(old: Seq<TaskRow>, new: Seq<TaskRow>, idx: int) -> bool {
    &&& new.len() == old.len()
    &&& forall|k: int| 0 <= k < old.len() && k != idx ==> new[k] == old[k]
    &&& (0 <= idx < old.len() ==> {
        &&& new[idx].id == old[idx].id
        &&& new[idx].board_id == old[idx].board_id
        &&& new[idx].parent_id == old[idx].parent_id
        &&& new[idx].size == old[idx].size
        &&& new[idx].title == old[idx].title
        &&& new[idx].description == old[idx].description
        &&& new[idx].assignee_id == old[idx].assignee_id
        &&& new[idx].created_by == old[idx].created_by
        &&& new[idx].created_at == old[idx].created_at
    })
}

/// The note that records an automatic status change.
pub open spec fn auto_note_body(from: Seq<char>, to: Seq<char>) -> Seq<char> {
    "system: auto-updated status from '"@ + from + "' to '"@ + to
        + "' based on child task states"@
}

/// What a step of bringing large tasks up to date may change: the users,
/// boards, members and permissions stay; of the tasks only the status and
/// updater of the row of `task_id` on the board; of the dependency rows only
/// those of `task_id`; notes are only appended.
pub open spec fn sync_frame(old: Db, new: Db, board_id: i64, task_id: i64) -> bool {
    &&& new.users@ == old.users@
    &&& new.boards@ == old.boards@
    &&& new.members@ == old.members@
    &&& new.permissions@ == old.permissions@
    &&& forall|k: int|
        0 <= k < old.tasks@.len() && (old.tasks@[k].id != task_id || old.tasks@[k].board_id
            != board_id) ==> new.tasks@[k] == old.tasks@[k]
    &&& exists|idx: int|
        #[trigger] only_status_at(old.tasks@, new.tasks@, idx) && (0 <= idx < old.tasks@.len()
            ==> first_task_in_board(old.tasks@, board_id, task_id, idx))
    &&& forall|v: i64|
        v != task_id ==> #[trigger] deps_listed(new.dependencies@, v) == deps_listed(
            old.dependencies@,
            v,
        )
    &&& new.notes@.len() >= old.notes@.len()
    &&& new.notes@.take(old.notes@.len() as int) == old.notes@
}

proof fn lemma_sync_frame_refl(db: Db, board_id: i64, task_id: i64)
    ensures
        sync_frame(db, db, board_id, task_id),
{
    assert(only_status_at(db.tasks@, db.tasks@, -1));
    assert(db.notes@.take(db.notes@.len() as int) =~= db.notes@);
}

pub proof fn lemma_deps_listed_others(deps: Seq<Dependency>, task_id: i64, nd: Seq<i64>, v: i64)
    requires
        v != task_id,
    ensures
        deps_listed(deps.filter(deps_of_others(task_id)) + dep_rows(task_id, nd), v) == deps_listed(deps, v),
{
    lemma_deps_listed_append_others(deps.filter(deps_of_others(task_id)), task_id, nd, v);
    lemma_deps_listed_filter(deps, task_id, v);
}

proof fn lemma_deps_listed_append_others(deps: Seq<Dependency>, task_id: i64, nd: Seq<i64>, v: i64)
    requires
        v != task_id,
    ensures
        deps_listed(deps + dep_rows(task_id, nd), v) == deps_listed(deps, v),
    decreases nd.len(),
{
    let s = deps + dep_rows(task_id, nd);
    if nd.len() > 0 {
        let shorter = deps + dep_rows(task_id, nd.drop_last());
        assert(s.drop_last() =~= shorter);
        assert(s.last() == Dependency { task_id, depends_on: nd.last() });
        lemma_deps_listed_append_others(deps, task_id, nd.drop_last(), v);
        assert(deps_listed(s, v) == deps_listed(s.drop_last(), v));
    } else {
        assert(s =~= deps);
    }
}

proof fn lemma_deps_listed_filter(deps: Seq<Dependency>, task_id: i64, v: i64)
    requires
        v != task_id,
    ensures
        deps_listed(deps.filter(deps_of_others(task_id)), v) == deps_listed(deps, v),
    decreases deps.len(),
{
    let p = deps_of_others(task_id);
    if deps.len() > 0 {
        let rest = deps.drop_last();
        let x = deps.last();
        lemma_deps_listed_filter(rest, task_id, v);
        assert(rest.push(x) =~= deps);
        rest.lemma_filter_push(x, p);
        if p(x) {
            let f = rest.filter(p).push(x);
            assert(f.drop_last() =~= rest.filter(p));
            assert(deps_listed(f, v) == if x.task_id == v {
                deps_listed(rest.filter(p), v).push(x.depends_on)
            } else {
                deps_listed(rest.filter(p), v)
            });
        } else {
            assert(x.task_id == task_id);
        }
    } else {
        reveal_with_fuel(Seq::<_>::filter, 1);
        assert(deps.filter(p) =~= deps);
    }
}

/// The rows of `task_id` that [`set_dependencies`] writes list `nd`.
pub proof fn lemma_deps_listed_own(deps: Seq<Dependency>, task_id: i64, nd: Seq<i64>)
    ensures
        deps_listed(deps.filter(deps_of_others(task_id)) + dep_rows(task_id, nd), task_id) == nd,
{
    lemma_deps_listed_filter_own(deps, task_id);
    lemma_deps_listed_append_own(deps.filter(deps_of_others(task_id)), task_id, nd);
}

proof fn lemma_deps_listed_filter_own(deps: Seq<Dependency>, task_id: i64)
    ensures
        deps_listed(deps.filter(deps_of_others(task_id)), task_id) == Seq::<i64>::empty(),
    decreases deps.len(),
{
    let p = deps_of_others(task_id);
    if deps.len() > 0 {
        let rest = deps.drop_last();
        let x = deps.last();
        lemma_deps_listed_filter_own(rest, task_id);
        assert(rest.push(x) =~= deps);
        rest.lemma_filter_push(x, p);
        if p(x) {
            let f = rest.filter(p).push(x);
            assert(f.drop_last() =~= rest.filter(p));
            assert(deps_listed(f, task_id) == deps_listed(rest.filter(p), task_id));
        }
    } else {
        reveal_with_fuel(Seq::<_>::filter, 1);
        assert(deps.filter(p) =~= deps);
    }
}

proof fn lemma_deps_listed_append_own(deps: Seq<Dependency>, task_id: i64, nd: Seq<i64>)
    requires
        deps_listed(deps, task_id) == Seq::<i64>::empty(),
    ensures
        deps_listed(deps + dep_rows(task_id, nd), task_id) == nd,
    decreases nd.len(),
{
    let s = deps + dep_rows(task_id, nd);
    if nd.len() > 0 {
        let shorter = deps + dep_rows(task_id, nd.drop_last());
        assert(s.drop_last() =~= shorter);
        assert(s.last() == Dependency { task_id, depends_on: nd.last() });
        lemma_deps_listed_append_own(deps, task_id, nd.drop_last());
        assert(deps_listed(s, task_id) == deps_listed(shorter, task_id).push(nd.last()));
        assert(nd.drop_last().push(nd.last()) =~= nd);
    } else {
        assert(s =~= deps);
    }
}

/// An error that bringing large tasks up to date can give: a `dependency`
/// error of the new dependency list, or the storage engine's refusal when
/// note ids run out.
pub open spec fn sync_error(e: CmdError) -> bool {
    ||| e is App && e->App_0.0@ == "dependency"@
    ||| e is Store && e.text() == crate::store::full_msg()
}

/// Brings large task `task_id` up to date with its subtasks: it comes to
/// depend exactly on them, and when the status that their statuses give
/// differs from its own it takes that status, with a note from the
/// system. Gives the task's parent; a task that is not on the board gives
/// `None` and a task that is not large changes nothing.
pub fn sync_large_task(
    db: &mut Db,
    board_id: i64,
    task_id: i64,
    now: i64,
) -> (r: Result<Option<i64>, CmdError>)
    ensures
        !task_in_board(old(db).tasks@, board_id, task_id) ==> r == Ok::<Option<i64>, CmdError>(None)
            && *final(db) == *old(db),
        task_in_board(old(db).tasks@, board_id, task_id) && task_at(*old(db), board_id, task_id).size@
            != "large"@ ==> r == Ok::<Option<i64>, CmdError>(task_at(*old(db), board_id, task_id).parent_id)
            && *final(db) == *old(db),
        task_in_board(old(db).tasks@, board_id, task_id) && task_at(*old(db), board_id, task_id).size@
            == "large"@ ==> {
            let nd = sorted_ids(child_ids(old(db).tasks@, board_id, task_id));
            match dep_check(*old(db), board_id, task_id, nd) {
                DepCheck::SelfDependency => fails_with(r, "dependency"@, "self dependency is not allowed"@),
                DepCheck::NotInBoard(d) => fails_with(r, "dependency"@, not_in_board_msg(d, board_id)),
                DepCheck::Cycle => fails_with(r, "dependency"@, "cycle detected"@),
                DepCheck::Fine => {
                    let from = task_at(*old(db), board_id, task_id).status@;
                    let to = derived_status(child_statuses(old(db).tasks@, board_id, task_id));
                    &&& (r is Err <==> from != to && crate::store::max_id(crate::store::note_ids(old(db).notes@))
                        == i64::MAX)
                    &&& r matches Err(e) ==> sync_error(e)
                    &&& r is Ok ==> {
                        &&& r == Ok::<Option<i64>, CmdError>(task_at(*old(db), board_id, task_id).parent_id)
                        &&& deps_listed(final(db).dependencies@, task_id) == nd
                        &&& final(db).dependencies@ == old(db).dependencies@.filter(deps_of_others(task_id))
                            + dep_rows(task_id, nd)
                        &&& task_at(*final(db), board_id, task_id).status@ == to
                        &&& (from == to ==> final(db).tasks@ == old(db).tasks@)
                        &&& (from != to ==> task_at(*final(db), board_id, task_id).updated_by is None
                            && task_at(*final(db), board_id, task_id).updated_at == now)
                        &&& (from == to ==> final(db).notes@ == old(db).notes@)
                        &&& (from != to ==> final(db).notes@.len() == old(db).notes@.len() + 1
                            && final(db).notes@ == old(db).notes@.push(final(db).notes@.last())
                            && final(db).notes@.last().id == crate::store::max_id(crate::store::note_ids(old(db).notes@)) + 1
                            && final(db).notes@.last().task_id == task_id
                            && final(db).notes@.last().author_id is None
                            && final(db).notes@.last().status@ == to
                            && final(db).notes@.last().body@ == auto_note_body(from, to))
                    }
                },
            }
        },
        r matches Ok(p) ==> p == parent_in_board(*old(db), board_id, task_id),
        r matches Err(e) ==> sync_error(e),
        r is Ok ==> sync_frame(*old(db), *final(db), board_id, task_id),
        r is Ok ==> forall|k: int|
            0 <= k < old(db).tasks@.len() && old(db).tasks@[k].size@ != "large"@ ==> #[trigger] final(db).tasks@[k]
                == old(db).tasks@[k],
        r is Ok && well_formed(*old(db)) ==> well_formed(*final(db)),
{
    proof {
        lemma_sync_frame_refl(*db, board_id, task_id);
    }
    let i = match find_task_in_board(&db.tasks, board_id, task_id) {
        None => {
            return Ok(None);
        },
        Some(i) => i,
    };
    proof {
        let k = choose|k: int| first_task_in_board(db.tasks@, board_id, task_id, k);
        lemma_first_task_unique(db.tasks@, board_id, task_id, i as int, k);
    }
    let parent = db.tasks[i].parent_id;
    if !str_eq(db.tasks[i].size.as_str(), "large") {
        return Ok(parent);
    }
    let children = child_ids_of(db, board_id, task_id);
    set_dependencies(db, board_id, task_id, &children)?;
    proof {
        let nd = sorted_ids(children@);
        lemma_deps_listed_own(old(db).dependencies@, task_id, nd);
        assert forall|v: i64| v != task_id implies #[trigger] deps_listed(db.dependencies@, v) == deps_listed(old(db).dependencies@, v) by {
            lemma_deps_listed_others(old(db).dependencies@, task_id, nd, v);
        }
        assert(db.notes@.take(old(db).notes@.len() as int) =~= db.notes@);
    }
    let ghost with_deps = *db;
    let new_status = derive_large_status(db, board_id, task_id);
    proof {
        let k = choose|k: int| first_task_in_board(old(db).tasks@, board_id, task_id, k);
        lemma_first_task_unique(old(db).tasks@, board_id, task_id, i as int, k);
        assert(db.tasks@ == old(db).tasks@);
        assert(db.notes@ == old(db).notes@);
        crate::store::lemma_max_id_bound(crate::store::note_ids(db.notes@));
    }
    if db.tasks[i].status != new_status {
        assert(db.tasks@[i as int].status@ != new_status@);
        let note_id = crate::store::next_note_id(&db.notes)?;
        let current = db.tasks[i].status.clone();
        let mut row = crate::cascade::copy_task(&db.tasks[i]);
        row.status = new_status.clone();
        row.updated_by = None;
        row.updated_at = now;
        let mut body = String::new();
        append_str(&mut body, "system: auto-updated status from '");
        append_str(&mut body, current.as_str());
        append_str(&mut body, "' to '");
        append_str(&mut body, new_status.as_str());
        append_str(&mut body, "' based on child task states");
        let note = crate::store::Note {
            id: note_id,
            task_id,
            author_id: None,
            status: new_status.clone(),
            body,
            created_at: now,
        };
        let ghost n0 = db.notes@;
        db.tasks.set(i, row);
        db.notes.push(note);
        proof {
            assert(first_task_in_board(db.tasks@, board_id, task_id, i as int));
            let k = choose|k: int| first_task_in_board(db.tasks@, board_id, task_id, k);
            lemma_first_task_unique(db.tasks@, board_id, task_id, i as int, k);
            assert(only_status_at(old(db).tasks@, db.tasks@, i as int));
            assert(db.notes@.take(n0.len() as int) =~= n0);
            assert(db.notes@.take(old(db).notes@.len() as int) =~= old(db).notes@);
            if well_formed(*old(db)) {
                assert(same_links(with_deps.tasks@, db.tasks@));
                lemma_well_formed_same_links(with_deps, *db);
            }
        }
    } else {
        proof {
            assert(only_status_at(old(db).tasks@, db.tasks@, i as int));
        }
    }
    Ok(parent)
}

/// `new` holds the same tasks as `old`, in the same places, with the same
/// ids, boards, parents, sizes, titles, descriptions, assignees and
/// creators.
pub open spec fn same_shape(old: Seq<TaskRow>, new: Seq<TaskRow>) -> bool {
    &&& new.len() == old.len()
    &&& forall|k: int|
        0 <= k < old.len() ==> {
            &&& (#[trigger] new[k]).id == old[k].id
            &&& new[k].board_id == old[k].board_id
            &&& new[k].parent_id == old[k].parent_id
            &&& new[k].size == old[k].size
            &&& new[k].title == old[k].title
            &&& new[k].description == old[k].description
            &&& new[k].assignee_id == old[k].assignee_id
            &&& new[k].created_by == old[k].created_by
            &&& new[k].created_at == old[k].created_at
        }
}

/// What bringing large tasks up to date may change: the users, boards,
/// members and permissions stay, the tasks keep their shape, and notes are
/// only appended.
pub open spec fn status_frame(old: Db, new: Db) -> bool {
    &&& new.users@ == old.users@
    &&& new.boards@ == old.boards@
    &&& new.members@ == old.members@
    &&& new.permissions@ == old.permissions@
    &&& same_shape(old.tasks@, new.tasks@)
    &&& new.notes@.len() >= old.notes@.len()
    &&& new.notes@.take(old.notes@.len() as int) == old.notes@
}

/// The task `t` of the chain, if any, is up to date.
pub open spec fn up_to_date(db: Db, board_id: i64, t: Option<i64>) -> bool {
    match t {
        Some(v) => large_consistent(db, board_id, v),
        None => true,
    }
}

/// Task `v` is on the chain of parents from `start`.
pub open spec fn on_chain(db: Db, board_id: i64, start: i64, v: i64) -> bool {
    exists|j: nat| #[trigger] ancestor(db, board_id, start, j) == Some(v)
}

/// Tables of the same shape have the same chains of parents.
pub proof fn lemma_same_shape_on_chain(old: Db, new: Db, board_id: i64, start: i64)
    requires
        same_shape(old.tasks@, new.tasks@),
    ensures
        forall|v: i64| #[trigger] on_chain(new, board_id, start, v) == on_chain(old, board_id, start, v),
{
    assert forall|v: i64| #[trigger] on_chain(new, board_id, start, v) == on_chain(old, board_id, start, v) by {
        if on_chain(new, board_id, start, v) {
            let j = choose|j: nat| #[trigger] ancestor(new, board_id, start, j) == Some(v);
            lemma_same_shape_ancestor(old, new, board_id, start, j);
        }
        if on_chain(old, board_id, start, v) {
            let j = choose|j: nat| #[trigger] ancestor(old, board_id, start, j) == Some(v);
            lemma_same_shape_ancestor(old, new, board_id, start, j);
            assert(ancestor(new, board_id, start, j) == Some(v));
        }
    }
}

/// The chain of parents from `start` ends.
pub open spec fn chain_ends(db: Db, board_id: i64, start: i64) -> bool {
    exists|n: nat| #[trigger] ancestor(db, board_id, start, n) is None
}

pub proof fn lemma_same_shape_child_ids(old: Seq<TaskRow>, new: Seq<TaskRow>, board_id: i64, u: i64)
    requires
        same_shape(old, new),
    ensures
        child_ids(new, board_id, u) == child_ids(old, board_id, u),
    decreases old.len(),
{
    if old.len() > 0 {
        assert(new.last() == new[new.len() - 1]);
        assert(same_shape(old.drop_last(), new.drop_last())) by {
            assert forall|k: int| 0 <= k < old.drop_last().len() implies {
                &&& (#[trigger] new.drop_last()[k]).id == old.drop_last()[k].id
                &&& new.drop_last()[k].board_id == old.drop_last()[k].board_id
                &&& new.drop_last()[k].parent_id == old.drop_last()[k].parent_id
                &&& new.drop_last()[k].size == old.drop_last()[k].size
                &&& new.drop_last()[k].title == old.drop_last()[k].title
                &&& new.drop_last()[k].description == old.drop_last()[k].description
                &&& new.drop_last()[k].assignee_id == old.drop_last()[k].assignee_id
                &&& new.drop_last()[k].created_by == old.drop_last()[k].created_by
                &&& new.drop_last()[k].created_at == old.drop_last()[k].created_at
            } by {
                assert(new[k].id == old[k].id);
            }
        }
        lemma_same_shape_child_ids(old.drop_last(), new.drop_last(), board_id, u);
    }
}

/// The statuses of the subtasks of `u` depend only on the rows of those
/// subtasks, when every row keeps its board and parent.
proof fn lemma_child_statuses_local(old: Seq<TaskRow>, new: Seq<TaskRow>, board_id: i64, u: i64)
    requires
        new.len() == old.len(),
        forall|k: int|
            0 <= k < old.len() ==> (#[trigger] new[k]).board_id == old[k].board_id && new[k].parent_id
                == old[k].parent_id,
        forall|k: int|
            0 <= k < old.len() && (#[trigger] old[k]).board_id == board_id && old[k].parent_id == Some(u)
                ==> new[k] == old[k],
    ensures
        child_statuses(new, board_id, u) == child_statuses(old, board_id, u),
    decreases old.len(),
{
    if old.len() > 0 {
        let od = old.drop_last();
        let nd = new.drop_last();
        assert(new.last() == new[new.len() - 1]);
        assert(old.last() == old[old.len() - 1]);
        assert forall|k: int| 0 <= k < od.len() implies (#[trigger] nd[k]).board_id == od[k].board_id
            && nd[k].parent_id == od[k].parent_id by {
            assert(new[k].board_id == old[k].board_id);
        }
        assert forall|k: int| 0 <= k < od.len() && (#[trigger] od[k]).board_id == board_id && od[k].parent_id
            == Some(u) implies nd[k] == od[k] by {
            assert(old[k] == od[k]);
        }
        lemma_child_statuses_local(od, nd, board_id, u);
    }
}

/// Whether a large task is up to date depends only on its own row, the rows
/// of its subtasks and its dependency rows.
pub proof fn lemma_consistent_local(old: Db, new: Db, board_id: i64, u: i64)
    requires
        same_shape(old.tasks@, new.tasks@),
        forall|k: int|
            0 <= k < old.tasks@.len() && old.tasks@[k].board_id == board_id && (old.tasks@[k].id == u
                || old.tasks@[k].parent_id == Some(u)) ==> #[trigger] new.tasks@[k] == old.tasks@[k],
        deps_listed(new.dependencies@, u) == deps_listed(old.dependencies@, u),
    ensures
        large_consistent(new, board_id, u) == large_consistent(old, board_id, u),
{
    lemma_same_shape_task_at(old, new, board_id, u);
    lemma_same_shape_child_ids(old.tasks@, new.tasks@, board_id, u);
    assert forall|k: int| 0 <= k < old.tasks@.len() implies (#[trigger] new.tasks@[k]).board_id == old.tasks@[k].board_id
        && new.tasks@[k].parent_id == old.tasks@[k].parent_id by {
        assert(new.tasks@[k].id == old.tasks@[k].id);
    }
    lemma_child_statuses_local(old.tasks@, new.tasks@, board_id, u);
    if task_in_board(old.tasks@, board_id, u) {
        lemma_first_task_exists(old.tasks@, board_id, u);
        let f = choose|f: int| first_task_in_board(old.tasks@, board_id, u, f);
        assert forall|j: int| 0 <= j < f implies !(new.tasks@[j].id == u && new.tasks@[j].board_id == board_id) by {
            assert(new.tasks@[j].id == old.tasks@[j].id);
        }
        assert(new.tasks@[f] == old.tasks@[f]);
        assert(first_task_in_board(new.tasks@, board_id, u, f));
        lemma_first_task_exists(new.tasks@, board_id, u);
        let f2 = choose|f: int| first_task_in_board(new.tasks@, board_id, u, f);
        lemma_first_task_unique(new.tasks@, board_id, u, f, f2);
        let f1 = choose|f: int| first_task_in_board(old.tasks@, board_id, u, f);
        lemma_first_task_unique(old.tasks@, board_id, u, f, f1);
        assert(task_at(new, board_id, u) == task_at(old, board_id, u));
    }
}

/// The subtasks of `u` and their statuses depend only on the rows that are
/// subtasks of `u` before or after.
pub proof fn lemma_children_local(old: Seq<TaskRow>, new: Seq<TaskRow>, board_id: i64, u: i64)
    requires
        new.len() == old.len(),
        forall|k: int|
            0 <= k < old.len() && ((#[trigger] old[k]).board_id == board_id && old[k].parent_id == Some(u)
                || new[k].board_id == board_id && new[k].parent_id == Some(u)) ==> new[k] == old[k],
    ensures
        child_statuses(new, board_id, u) == child_statuses(old, board_id, u),
        child_ids(new, board_id, u) == child_ids(old, board_id, u),
    decreases old.len(),
{
    if old.len() > 0 {
        let od = old.drop_last();
        let nd = new.drop_last();
        assert(new.last() == new[new.len() - 1]);
        assert(old.last() == old[old.len() - 1]);
        assert forall|k: int|
            0 <= k < od.len() && ((#[trigger] od[k]).board_id == board_id && od[k].parent_id == Some(u)
                || nd[k].board_id == board_id && nd[k].parent_id == Some(u)) implies nd[k] == od[k] by {
            assert(old[k] == od[k]);
            assert(new[k] == nd[k]);
        }
        lemma_children_local(od, nd, board_id, u);
    }
}

/// Whether a large task is up to date depends only on its own row, the rows
/// that are its subtasks before or after, and its dependency rows, when
/// every row keeps its id and board.
pub proof fn lemma_consistent_local_rows(old: Db, new: Db, board_id: i64, u: i64)
    requires
        new.tasks@.len() == old.tasks@.len(),
        forall|k: int|
            0 <= k < old.tasks@.len() ==> (#[trigger] new.tasks@[k]).id == old.tasks@[k].id
                && new.tasks@[k].board_id == old.tasks@[k].board_id,
        forall|k: int|
            0 <= k < old.tasks@.len() && old.tasks@[k].board_id == board_id && (old.tasks@[k].id == u
                || old.tasks@[k].parent_id == Some(u) || new.tasks@[k].parent_id == Some(u))
                ==> #[trigger] new.tasks@[k] == old.tasks@[k],
        deps_listed(new.dependencies@, u) == deps_listed(old.dependencies@, u),
    ensures
        large_consistent(new, board_id, u) == large_consistent(old, board_id, u),
{
    lemma_children_local(old.tasks@, new.tasks@, board_id, u);
    if task_in_board(old.tasks@, board_id, u) {
        lemma_first_task_exists(old.tasks@, board_id, u);
        let f = choose|f: int| first_task_in_board(old.tasks@, board_id, u, f);
        assert forall|j: int| 0 <= j < f implies !(new.tasks@[j].id == u && new.tasks@[j].board_id == board_id) by {
            assert(new.tasks@[j].id == old.tasks@[j].id);
        }
        assert(new.tasks@[f] == old.tasks@[f]);
        assert(first_task_in_board(new.tasks@, board_id, u, f));
        lemma_first_task_exists(new.tasks@, board_id, u);
        let f2 = choose|f: int| first_task_in_board(new.tasks@, board_id, u, f);
        lemma_first_task_unique(new.tasks@, board_id, u, f, f2);
        let f1 = choose|f: int| first_task_in_board(old.tasks@, board_id, u, f);
        lemma_first_task_unique(old.tasks@, board_id, u, f, f1);
        assert(task_at(new, board_id, u) == task_at(old, board_id, u));
    }
    if task_in_board(new.tasks@, board_id, u) {
        let q = choose|q: int| 0 <= q < new.tasks@.len() && new.tasks@[q].id == u && new.tasks@[q].board_id == board_id;
        assert(old.tasks@[q].id == u);
    }
}

pub proof fn lemma_same_shape_parent(old: Db, new: Db, board_id: i64, id: i64)
    requires
        same_shape(old.tasks@, new.tasks@),
    ensures
        task_in_board(new.tasks@, board_id, id) == task_in_board(old.tasks@, board_id, id),
        forall|i: int|
            first_task_in_board(new.tasks@, board_id, id, i) == first_task_in_board(
                old.tasks@,
                board_id,
                id,
                i,
            ),
        parent_in_board(new, board_id, id) == parent_in_board(old, board_id, id),
{
    if task_in_board(old.tasks@, board_id, id) {
        let j = choose|j: int| 0 <= j < old.tasks@.len() && old.tasks@[j].id == id && old.tasks@[j].board_id == board_id;
        assert(new.tasks@[j].id == id);
    }
    if task_in_board(new.tasks@, board_id, id) {
        let j = choose|j: int| 0 <= j < new.tasks@.len() && new.tasks@[j].id == id && new.tasks@[j].board_id == board_id;
        assert(new.tasks@[j].id == old.tasks@[j].id);
    }
    assert forall|i: int|
        first_task_in_board(new.tasks@, board_id, id, i) == first_task_in_board(old.tasks@, board_id, id, i) by {
        if 0 <= i < old.tasks@.len() {
            assert(new.tasks@[i].id == old.tasks@[i].id);
            assert forall|j: int| 0 <= j < i implies (new.tasks@[j].id == id && new.tasks@[j].board_id == board_id)
                == (old.tasks@[j].id == id && old.tasks@[j].board_id == board_id) by {
                assert(new.tasks@[j].id == old.tasks@[j].id);
            }
        }
    }
    if task_in_board(old.tasks@, board_id, id) {
        lemma_first_task_exists(old.tasks@, board_id, id);
        let i = choose|i: int| first_task_in_board(old.tasks@, board_id, id, i);
        let i2 = choose|i: int| first_task_in_board(new.tasks@, board_id, id, i);
        assert(first_task_in_board(new.tasks@, board_id, id, i));
        assert(first_task_in_board(old.tasks@, board_id, id, i2));
        lemma_first_task_unique(old.tasks@, board_id, id, i, i2);
        assert(new.tasks@[i].parent_id == old.tasks@[i].parent_id);
    }
}

pub proof fn lemma_same_shape_ancestor(old: Db, new: Db, board_id: i64, start: i64, n: nat)
    requires
        same_shape(old.tasks@, new.tasks@),
    ensures
        ancestor(new, board_id, start, n) == ancestor(old, board_id, start, n),
    decreases n,
{
    if n > 0 {
        lemma_same_shape_ancestor(old, new, board_id, start, (n - 1) as nat);
        if let Some(c) = ancestor(old, board_id, start, (n - 1) as nat) {
            lemma_same_shape_parent(old, new, board_id, c);
        }
    }
}

proof fn lemma_child_statuses_frame(old: Seq<TaskRow>, new: Seq<TaskRow>, idx: int, board_id: i64, u: i64)
    requires
        only_status_at(old, new, idx),
        0 <= idx < old.len() ==> !(old[idx].board_id == board_id && old[idx].parent_id == Some(u)),
    ensures
        child_statuses(new, board_id, u) == child_statuses(old, board_id, u),
    decreases old.len(),
{
    if old.len() > 0 {
        let od = old.drop_last();
        let nd = new.drop_last();
        assert(only_status_at(od, nd, idx)) by {
            assert forall|k: int| 0 <= k < od.len() && k != idx implies nd[k] == od[k] by {
                assert(new[k] == old[k]);
            }
        }
        lemma_child_statuses_frame(od, nd, idx, board_id, u);
        assert(new.last() == new[new.len() - 1]);
    }
}

/// A sync step of `v` keeps every other large task of the board up to date,
/// unless that task is the parent of `v`.
proof fn lemma_sync_keeps_consistent(old: Db, new: Db, board_id: i64, v: i64, u: i64)
    requires
        sync_frame(old, new, board_id, v),
        large_consistent(old, board_id, u),
        u != v,
        parent_in_board(old, board_id, v) != Some(u),
    ensures
        large_consistent(new, board_id, u),
{
    let idx = choose|idx: int| #[trigger] only_status_at(old.tasks@, new.tasks@, idx) && (0 <= idx < old.tasks@.len()
        ==> first_task_in_board(old.tasks@, board_id, v, idx));
    assert(same_shape(old.tasks@, new.tasks@)) by {
        assert forall|k: int| 0 <= k < old.tasks@.len() implies {
            &&& (#[trigger] new.tasks@[k]).id == old.tasks@[k].id
            &&& new.tasks@[k].board_id == old.tasks@[k].board_id
            &&& new.tasks@[k].parent_id == old.tasks@[k].parent_id
            &&& new.tasks@[k].size == old.tasks@[k].size
            &&& new.tasks@[k].title == old.tasks@[k].title
            &&& new.tasks@[k].description == old.tasks@[k].description
            &&& new.tasks@[k].assignee_id == old.tasks@[k].assignee_id
            &&& new.tasks@[k].created_by == old.tasks@[k].created_by
            &&& new.tasks@[k].created_at == old.tasks@[k].created_at
        } by {
            if k != idx {
                assert(new.tasks@[k] == old.tasks@[k]);
            }
        }
    }
    lemma_same_shape_parent(old, new, board_id, u);
    lemma_same_shape_child_ids(old.tasks@, new.tasks@, board_id, u);
    if 0 <= idx < old.tasks@.len() {
        lemma_first_task_exists(old.tasks@, board_id, v);
        let f = choose|i: int| first_task_in_board(old.tasks@, board_id, v, i);
        lemma_first_task_unique(old.tasks@, board_id, v, idx, f);
    }
    lemma_child_statuses_frame(old.tasks@, new.tasks@, idx, board_id, u);
    if task_in_board(new.tasks@, board_id, u) {
        lemma_first_task_exists(old.tasks@, board_id, u);
        let i = choose|i: int| first_task_in_board(old.tasks@, board_id, u, i);
        assert(first_task_in_board(new.tasks@, board_id, u, i));
        let i2 = choose|i: int| first_task_in_board(new.tasks@, board_id, u, i);
        lemma_first_task_unique(new.tasks@, board_id, u, i, i2);
        assert(new.tasks@[i] == old.tasks@[i]);
        assert(task_at(new, board_id, u) == task_at(old, board_id, u));
    }
}

/// After a successful sync step, `v` itself is up to date, unless it is its
/// own parent.
pub proof fn lemma_sync_makes_consistent(old: Db, new: Db, board_id: i64, v: i64)
    requires
        sync_frame(old, new, board_id, v),
        parent_in_board(old, board_id, v) != Some(v),
        task_in_board(old.tasks@, board_id, v) && task_at(old, board_id, v).size@ == "large"@ ==> {
            &&& deps_listed(new.dependencies@, v) == sorted_ids(child_ids(old.tasks@, board_id, v))
            &&& task_at(new, board_id, v).status@ == derived_status(
                child_statuses(old.tasks@, board_id, v),
            )
        },
    ensures
        large_consistent(new, board_id, v),
{
    let idx = choose|idx: int| #[trigger] only_status_at(old.tasks@, new.tasks@, idx) && (0 <= idx < old.tasks@.len()
        ==> first_task_in_board(old.tasks@, board_id, v, idx));
    assert(same_shape(old.tasks@, new.tasks@)) by {
        assert forall|k: int| 0 <= k < old.tasks@.len() implies {
            &&& (#[trigger] new.tasks@[k]).id == old.tasks@[k].id
            &&& new.tasks@[k].board_id == old.tasks@[k].board_id
            &&& new.tasks@[k].parent_id == old.tasks@[k].parent_id
            &&& new.tasks@[k].size == old.tasks@[k].size
            &&& new.tasks@[k].title == old.tasks@[k].title
            &&& new.tasks@[k].description == old.tasks@[k].description
            &&& new.tasks@[k].assignee_id == old.tasks@[k].assignee_id
            &&& new.tasks@[k].created_by == old.tasks@[k].created_by
            &&& new.tasks@[k].created_at == old.tasks@[k].created_at
        } by {
            if k != idx {
                assert(new.tasks@[k] == old.tasks@[k]);
            }
        }
    }
    lemma_same_shape_parent(old, new, board_id, v);
    lemma_same_shape_child_ids(old.tasks@, new.tasks@, board_id, v);
    if 0 <= idx < old.tasks@.len() {
        lemma_first_task_exists(old.tasks@, board_id, v);
        let f = choose|i: int| first_task_in_board(old.tasks@, board_id, v, i);
        lemma_first_task_unique(old.tasks@, board_id, v, idx, f);
    }
    lemma_child_statuses_frame(old.tasks@, new.tasks@, idx, board_id, v);
    if task_in_board(new.tasks@, board_id, v) {
        lemma_first_task_exists(old.tasks@, board_id, v);
        let i = choose|i: int| first_task_in_board(old.tasks@, board_id, v, i);
        assert(first_task_in_board(new.tasks@, board_id, v, i));
        let i2 = choose|i: int| first_task_in_board(new.tasks@, board_id, v, i);
        lemma_first_task_unique(new.tasks@, board_id, v, i, i2);
        assert(new.tasks@[i].size == old.tasks@[i].size);
    }
}

proof fn lemma_status_frame_step(a: Db, b: Db, c: Db, board_id: i64, v: i64)
    requires
        status_frame(a, b),
        sync_frame(b, c, board_id, v),
    ensures
        status_frame(a, c),
{
    let idx = choose|idx: int| #[trigger] only_status_at(b.tasks@, c.tasks@, idx) && (0 <= idx < b.tasks@.len()
        ==> first_task_in_board(b.tasks@, board_id, v, idx));
    assert forall|k: int| 0 <= k < a.tasks@.len() implies {
        &&& (#[trigger] c.tasks@[k]).id == a.tasks@[k].id
        &&& c.tasks@[k].board_id == a.tasks@[k].board_id
        &&& c.tasks@[k].parent_id == a.tasks@[k].parent_id
        &&& c.tasks@[k].size == a.tasks@[k].size
        &&& c.tasks@[k].title == a.tasks@[k].title
        &&& c.tasks@[k].description == a.tasks@[k].description
        &&& c.tasks@[k].assignee_id == a.tasks@[k].assignee_id
        &&& c.tasks@[k].created_by == a.tasks@[k].created_by
        &&& c.tasks@[k].created_at == a.tasks@[k].created_at
    } by {
        assert(b.tasks@[k].id == a.tasks@[k].id);
        if k != idx {
            assert(c.tasks@[k] == b.tasks@[k]);
        }
    }
    assert(c.notes@.take(a.notes@.len() as int) =~= c.notes@.take(b.notes@.len() as int).take(a.notes@.len() as int));
}

/// A task is not on the chain of parents that starts at its own parent,
/// when that chain ends.
pub proof fn lemma_not_on_parent_chain(db: Db, board_id: i64, t: i64, p: i64)
    requires
        parent_in_board(db, board_id, t) == Some(p),
        chain_ends(db, board_id, p),
    ensures
        !on_chain(db, board_id, p, t),
{
    if on_chain(db, board_id, p, t) {
        let k = choose|j: nat| #[trigger] ancestor(db, board_id, p, j) == Some(t);
        assert(ancestor(db, board_id, p, k + 1) == Some(p));
        assert forall|q: nat| q <= k + 1 implies (#[trigger] ancestor(db, board_id, p, q)) is Some by {
            if q <= k && ancestor(db, board_id, p, q) is None {
                lemma_ancestor_none_stays(db, board_id, p, q, k);
            }
        }
        let m = choose|n: nat| #[trigger] ancestor(db, board_id, p, n) is None;
        lemma_ancestor_cycle_never_ends(db, board_id, p, 0, k + 1, m);
    }
}

/// Having the same shape is transitive.
pub proof fn lemma_same_shape_trans(a: Seq<TaskRow>, b: Seq<TaskRow>, c: Seq<TaskRow>)
    requires
        same_shape(a, b),
        same_shape(b, c),
    ensures
        same_shape(a, c),
{
    assert forall|k: int| 0 <= k < a.len() implies {
        &&& (#[trigger] c[k]).id == a[k].id
        &&& c[k].board_id == a[k].board_id
        &&& c[k].parent_id == a[k].parent_id
        &&& c[k].size == a[k].size
        &&& c[k].title == a[k].title
        &&& c[k].description == a[k].description
        &&& c[k].assignee_id == a[k].assignee_id
        &&& c[k].created_by == a[k].created_by
        &&& c[k].created_at == a[k].created_at
    } by {
        assert(b[k].id == a[k].id);
    }
}

/// Every table has the same shape as itself.
pub proof fn lemma_same_shape_refl(a: Seq<TaskRow>)
    ensures
        same_shape(a, a),
{
}

/// A sync step of one task stays within what bringing large tasks up to
/// date may change.
pub proof fn lemma_sync_frame_status_frame(old: Db, new: Db, board_id: i64, v: i64)
    requires
        sync_frame(old, new, board_id, v),
    ensures
        status_frame(old, new),
{
    assert(old.notes@.take(old.notes@.len() as int) =~= old.notes@);
    lemma_status_frame_step(old, old, new, board_id, v);
}

/// Task `v` is a large task of board `board_id`.
pub open spec fn is_large(db: Db, board_id: i64, v: i64) -> bool {
    task_in_board(db.tasks@, board_id, v) && task_at(db, board_id, v).size@ == "large"@
}

/// A task that no row names as its parent has no subtasks.
pub proof fn lemma_no_children(tasks: Seq<TaskRow>, board_id: i64, v: i64)
    requires
        forall|k: int| 0 <= k < tasks.len() ==> (#[trigger] tasks[k]).parent_id != Some(v),
    ensures
        child_ids(tasks, board_id, v) == Seq::<i64>::empty(),
        child_statuses(tasks, board_id, v) == Seq::<Seq<char>>::empty(),
    decreases tasks.len(),
{
    if tasks.len() > 0 {
        let d = tasks.drop_last();
        assert forall|k: int| 0 <= k < d.len() implies (#[trigger] d[k]).parent_id != Some(v) by {
            assert(d[k] == tasks[k]);
        }
        lemma_no_children(d, board_id, v);
        assert(tasks.last() == tasks[tasks.len() - 1]);
    }
}

/// No ids, sorted, are no ids.
pub proof fn lemma_sorted_ids_empty()
    ensures
        sorted_ids(Seq::<i64>::empty()) == Seq::<i64>::empty(),
{
    let e = Seq::<i64>::empty();
    crate::utils::lemma_sorted_ids(e);
    let r = sorted_ids(e);
    if r.len() > 0 {
        assert(r.contains(r[0]));
    }
}

/// After the large tasks on the chain from `start` are brought up to date,
/// a large task that was up to date still is: it is on the chain, or the
/// sync left it as it was.
pub proof fn lemma_sync_chain_consistent(old: Db, new: Db, board_id: i64, start: i64, u: i64)
    requires
        large_consistent(old, board_id, u),
        forall|k: nat| up_to_date(new, board_id, #[trigger] ancestor(old, board_id, start, k)),
        forall|w: i64|
            large_consistent(old, board_id, w) && !on_chain(old, board_id, start, w)
                ==> #[trigger] large_consistent(new, board_id, w),
    ensures
        large_consistent(new, board_id, u),
{
    if on_chain(old, board_id, start, u) {
        let k = choose|j: nat| #[trigger] ancestor(old, board_id, start, j) == Some(u);
        assert(up_to_date(new, board_id, ancestor(old, board_id, start, k)));
    }
}

/// Tables of the same shape have the same chains of parents, with the same
/// large tasks on them.
pub proof fn lemma_same_shape_no_large(old: Db, new: Db, board_id: i64, start: i64)
    requires
        same_shape(old.tasks@, new.tasks@),
        no_large_above(old, board_id, start),
    ensures
        no_large_above(new, board_id, start),
{
    assert forall|k: nat| #[trigger] ancestor(new, board_id, start, k) is Some implies !is_large(
        new,
        board_id,
        ancestor(new, board_id, start, k)->0,
    ) by {
        lemma_same_shape_ancestor(old, new, board_id, start, k);
        lemma_same_shape_task_at(old, new, board_id, ancestor(old, board_id, start, k)->0);
    }
}

/// Tables of the same shape agree on which tasks are on a board, and on the
/// shape of their rows.
pub proof fn lemma_same_shape_task_at(old: Db, new: Db, board_id: i64, v: i64)
    requires
        same_shape(old.tasks@, new.tasks@),
    ensures
        task_in_board(new.tasks@, board_id, v) == task_in_board(old.tasks@, board_id, v),
        is_large(new, board_id, v) == is_large(old, board_id, v),
        task_in_board(old.tasks@, board_id, v) ==> {
            let a = task_at(old, board_id, v);
            let b = task_at(new, board_id, v);
            &&& b.id == a.id
            &&& b.board_id == a.board_id
            &&& b.parent_id == a.parent_id
            &&& b.size == a.size
            &&& b.title == a.title
            &&& b.description == a.description
            &&& b.assignee_id == a.assignee_id
            &&& b.created_by == a.created_by
            &&& b.created_at == a.created_at
        },
{
    lemma_same_shape_parent(old, new, board_id, v);
    if task_in_board(old.tasks@, board_id, v) {
        lemma_first_task_exists(old.tasks@, board_id, v);
        let i = choose|i: int| first_task_in_board(old.tasks@, board_id, v, i);
        let i2 = choose|i: int| first_task_in_board(new.tasks@, board_id, v, i);
        assert(first_task_in_board(new.tasks@, board_id, v, i));
        lemma_first_task_unique(new.tasks@, board_id, v, i, i2);
        assert(new.tasks@[i].size == old.tasks@[i].size);
    }
}

/// Every dependency row of board `board_id` is an edge of `g`.
pub open spec fn edges_within(db: Db, board_id: i64, g: spec_fn(i64, i64) -> bool) -> bool {
    forall|x: i64, y: i64|
        #[trigger] dep_row_in(db, board_id, db.dependencies@.len() as int, x, y) ==> g(x, y)
}

/// The subtasks of every large task on the chain from `start` are
/// successors of that task in `g`.
pub open spec fn children_edges_in(db: Db, board_id: i64, start: i64, g: spec_fn(i64, i64) -> bool) -> bool {
    forall|k: nat, c: i64|
        #[trigger] ancestor(db, board_id, start, k) is Some && is_large(
            db,
            board_id,
            ancestor(db, board_id, start, k)->0,
        ) && #[trigger] child_ids(db.tasks@, board_id, ancestor(db, board_id, start, k)->0).contains(c)
            ==> g(ancestor(db, board_id, start, k)->0, c)
}

/// Dependency rows taken from those of `old`, on tasks of the same shape,
/// stay within a graph that held those of `old`.
pub proof fn lemma_edges_within_sub(old: Db, new: Db, board_id: i64, g: spec_fn(i64, i64) -> bool)
    requires
        same_shape(old.tasks@, new.tasks@),
        forall|k: int| 0 <= k < new.dependencies@.len() ==> old.dependencies@.contains(#[trigger] new.dependencies@[k]),
        edges_within(old, board_id, g),
    ensures
        edges_within(new, board_id, g),
{
    assert forall|x: i64, y: i64|
        #[trigger] dep_row_in(new, board_id, new.dependencies@.len() as int, x, y) implies g(x, y) by {
        let k = choose|k: int|
            0 <= k < new.dependencies@.len() && k < new.dependencies@.len()
                && #[trigger] new.dependencies@[k].task_id == x && new.dependencies@[k].depends_on == y
                && task_in_board(new.tasks@, board_id, x);
        assert(old.dependencies@.contains(new.dependencies@[k]));
        let m = choose|m: int| 0 <= m < old.dependencies@.len() && old.dependencies@[m] == new.dependencies@[k];
        lemma_same_shape_task_at(old, new, board_id, x);
        assert(dep_row_in(old, board_id, old.dependencies@.len() as int, x, y));
    }
}

/// Note ids have room for one more note per task row.
pub open spec fn notes_room(db: Db) -> bool {
    crate::store::max_id(crate::store::note_ids(db.notes@)) + db.tasks@.len() < i64::MAX
}

/// Bringing the large tasks on the chain from `start` up to date cannot
/// fail: the chain ends, note ids have room, and the dependency rows of the
/// board together with the subtasks of the large tasks on the chain lie in
/// an acyclic graph.
pub open spec fn resync_fits(db: Db, board_id: i64, start: i64) -> bool {
    &&& chain_ends(db, board_id, start)
    &&& notes_room(db)
    &&& exists|g: spec_fn(i64, i64) -> bool|
        #[trigger] acyclic(g) && edges_within(db, board_id, g) && children_edges_in(db, board_id, start, g)
}

/// A subtask of a task on a board is a task of that board.
pub proof fn lemma_child_in_board(tasks: Seq<TaskRow>, board_id: i64, v: i64, c: i64)
    requires
        child_ids(tasks, board_id, v).contains(c),
    ensures
        task_in_board(tasks, board_id, c),
    decreases tasks.len(),
{
    if tasks.len() > 0 {
        let d = tasks.drop_last();
        let prev = child_ids(d, board_id, v);
        if prev.contains(c) {
            lemma_child_in_board(d, board_id, v, c);
            let j = choose|j: int| 0 <= j < d.len() && d[j].id == c && d[j].board_id == board_id;
            assert(tasks[j] == d[j]);
        } else {
            assert(tasks[tasks.len() - 1] == tasks.last());
        }
    }
}

/// One step of bringing a large task of the chain up to date passes the
/// check of its new dependency list, which lies in `g`.
proof fn lemma_sync_step_fits(
    db0: Db,
    pre: Db,
    board_id: i64,
    s: i64,
    n: nat,
    current: i64,
    g: spec_fn(i64, i64) -> bool,
)
    requires
        same_shape(db0.tasks@, pre.tasks@),
        ancestor(db0, board_id, s, n) == Some(current),
        acyclic(g),
        edges_within(pre, board_id, g),
        children_edges_in(db0, board_id, s, g),
        task_in_board(pre.tasks@, board_id, current),
        task_at(pre, board_id, current).size@ == "large"@,
    ensures
        dep_check(pre, board_id, current, sorted_ids(child_ids(pre.tasks@, board_id, current))) is Fine,
        forall|y: i64| #[trigger] sorted_ids(child_ids(pre.tasks@, board_id, current)).contains(y) ==> g(current, y),
{
    let ch = child_ids(pre.tasks@, board_id, current);
    let nd = sorted_ids(ch);
    crate::utils::lemma_sorted_ids(ch);
    lemma_same_shape_child_ids(db0.tasks@, pre.tasks@, board_id, current);
    lemma_same_shape_task_at(db0, pre, board_id, current);
    assert(is_large(db0, board_id, current));
    assert forall|y: i64| #[trigger] nd.contains(y) implies g(current, y) by {
        assert(ch.contains(y));
        assert(child_ids(db0.tasks@, board_id, ancestor(db0, board_id, s, n)->0).contains(y));
    }
    assert(is_path(g, seq![current], current, current));
    lemma_first_bad_facts(pre, board_id, current, nd);
    if let Some(k) = first_bad(pre, board_id, current, nd) {
        assert(nd.contains(nd[k]));
        assert(ch.contains(nd[k]));
        lemma_child_in_board(pre.tasks@, board_id, current, nd[k]);
        if nd[k] == current {
            assert(g(current, current));
            assert(is_edge(g, current, current));
        }
    }
    let h = edges_with(pre, board_id, current, nd);
    assert forall|x: i64, y: i64| #[trigger] h(x, y) implies g(x, y) by {
        if x == current {
            assert(nd.contains(y));
        } else {
            assert(dep_row_in(pre, board_id, pre.dependencies@.len() as int, x, y));
        }
    }
    crate::wellformed::lemma_acyclic_sub(g, h);
    assert forall|k: int| 0 <= k < nd.len() implies !reaches(h, #[trigger] nd[k], current) by {
        assert(nd.contains(nd[k]));
        assert(is_edge(h, current, nd[k]));
    }
}

/// After a step, the dependency rows of the board still lie in `g`.
proof fn lemma_sync_step_edges(
    pre: Db,
    post: Db,
    board_id: i64,
    current: i64,
    nd: Seq<i64>,
    g: spec_fn(i64, i64) -> bool,
)
    requires
        edges_within(pre, board_id, g),
        same_shape(pre.tasks@, post.tasks@),
        post.dependencies@ == pre.dependencies@.filter(deps_of_others(current)) + dep_rows(current, nd),
        forall|y: i64| #[trigger] nd.contains(y) ==> g(current, y),
    ensures
        edges_within(post, board_id, g),
{
    let kept = pre.dependencies@.filter(deps_of_others(current));
    assert forall|x: i64, y: i64|
        #[trigger] dep_row_in(post, board_id, post.dependencies@.len() as int, x, y) implies g(x, y) by {
        let k = choose|k: int|
            0 <= k < post.dependencies@.len() && k < post.dependencies@.len()
                && #[trigger] post.dependencies@[k].task_id == x && post.dependencies@[k].depends_on == y
                && task_in_board(post.tasks@, board_id, x);
        lemma_same_shape_task_at(pre, post, board_id, x);
        if k < kept.len() {
            assert(post.dependencies@[k] == kept[k]);
            assert(kept.contains(kept[k]));
            pre.dependencies@.lemma_filter_contains_rev(deps_of_others(current), kept[k]);
            let m = choose|m: int| 0 <= m < pre.dependencies@.len() && pre.dependencies@[m] == kept[k];
            assert(dep_row_in(pre, board_id, pre.dependencies@.len() as int, x, y));
        } else {
            assert(post.dependencies@[k] == dep_rows(current, nd)[k - kept.len()]);
            assert(nd.contains(nd[k - kept.len()]));
        }
    }
}

/// A note with the next id raises the largest note id by one.
pub proof fn lemma_note_push_max(notes: Seq<crate::store::Note>, x: crate::store::Note)
    requires
        x.id == crate::store::max_id(crate::store::note_ids(notes)) + 1,
    ensures
        crate::store::max_id(crate::store::note_ids(notes.push(x))) == crate::store::max_id(
            crate::store::note_ids(notes),
        ) + 1,
{
    assert(crate::store::note_ids(notes.push(x)) =~= crate::store::note_ids(notes).push(x.id));
    assert(crate::store::note_ids(notes).push(x.id).drop_last() =~= crate::store::note_ids(notes));
}

/// An id that the dependency rows list for a task comes from one of them.
pub proof fn lemma_deps_listed_row(deps: Seq<Dependency>, v: i64, c: i64)
    requires
        deps_listed(deps, v).contains(c),
    ensures
        exists|k: int| 0 <= k < deps.len() && #[trigger] deps[k].task_id == v && deps[k].depends_on == c,
    decreases deps.len(),
{
    if deps.len() > 0 {
        let d = deps.drop_last();
        if deps_listed(d, v).contains(c) {
            lemma_deps_listed_row(d, v, c);
            let k = choose|k: int| 0 <= k < d.len() && #[trigger] d[k].task_id == v && d[k].depends_on == c;
            assert(deps[k] == d[k]);
        } else {
            assert(deps[deps.len() - 1] == deps.last());
        }
    }
}

/// The large tasks on the chain from `start` are all up to date.
pub open spec fn chain_up_to_date(db: Db, board_id: i64, start: i64) -> bool {
    forall|k: nat| up_to_date(db, board_id, #[trigger] ancestor(db, board_id, start, k))
}

/// On tables whose dependencies form no cycle, a chain whose large tasks
/// are up to date fits in the dependency graph of the board: each large
/// task there already depends on its subtasks.
pub proof fn lemma_up_to_date_fits(db: Db, board_id: i64, start: i64)
    requires
        acyclic(board_dep_edges(db, board_id)),
        chain_up_to_date(db, board_id, start),
    ensures
        edges_within(db, board_id, board_dep_edges(db, board_id)),
        children_edges_in(db, board_id, start, board_dep_edges(db, board_id)),
{
    let g = board_dep_edges(db, board_id);
    assert forall|k: nat, c: i64|
        #[trigger] ancestor(db, board_id, start, k) is Some && is_large(
            db,
            board_id,
            ancestor(db, board_id, start, k)->0,
        ) && #[trigger] child_ids(db.tasks@, board_id, ancestor(db, board_id, start, k)->0).contains(c)
            implies g(ancestor(db, board_id, start, k)->0, c) by {
        let v = ancestor(db, board_id, start, k)->0;
        assert(up_to_date(db, board_id, ancestor(db, board_id, start, k)));
        let ch = child_ids(db.tasks@, board_id, v);
        crate::utils::lemma_sorted_ids(ch);
        assert(deps_listed(db.dependencies@, v) == sorted_ids(ch));
        assert(sorted_ids(ch).contains(c));
        lemma_deps_listed_row(db.dependencies@, v, c);
        let q = choose|q: int| 0 <= q < db.dependencies@.len() && #[trigger] db.dependencies@[q].task_id == v
            && db.dependencies@[q].depends_on == c;
        assert(dep_row_in(db, board_id, db.dependencies@.len() as int, v, c));
    }
}

/// Tables of the same shape with the same dependency rows have the same
/// dependency edges.
pub proof fn lemma_edges_within_same(old: Db, new: Db, board_id: i64, g: spec_fn(i64, i64) -> bool)
    requires
        same_shape(old.tasks@, new.tasks@),
        new.dependencies@ == old.dependencies@,
        edges_within(old, board_id, g),
    ensures
        edges_within(new, board_id, g),
{
    assert forall|x: i64, y: i64|
        #[trigger] dep_row_in(new, board_id, new.dependencies@.len() as int, x, y) implies g(x, y) by {
        lemma_same_shape_task_at(old, new, board_id, x);
        assert(dep_row_in(old, board_id, old.dependencies@.len() as int, x, y));
    }
}

/// Tables of the same shape have the same chains, large tasks and subtasks.
pub proof fn lemma_children_edges_same_shape(old: Db, new: Db, board_id: i64, s: i64, g: spec_fn(i64, i64) -> bool)
    requires
        same_shape(old.tasks@, new.tasks@),
        children_edges_in(old, board_id, s, g),
    ensures
        children_edges_in(new, board_id, s, g),
{
    assert forall|k: nat, c: i64|
        #[trigger] ancestor(new, board_id, s, k) is Some && is_large(
            new,
            board_id,
            ancestor(new, board_id, s, k)->0,
        ) && #[trigger] child_ids(new.tasks@, board_id, ancestor(new, board_id, s, k)->0).contains(c)
            implies g(ancestor(new, board_id, s, k)->0, c) by {
        lemma_same_shape_ancestor(old, new, board_id, s, k);
        let v = ancestor(new, board_id, s, k)->0;
        lemma_same_shape_task_at(old, new, board_id, v);
        lemma_same_shape_child_ids(old.tasks@, new.tasks@, board_id, v);
        assert(child_ids(old.tasks@, board_id, ancestor(old, board_id, s, k)->0).contains(c));
    }
}

/// No task on the chain of parents from `start` is large.
pub open spec fn no_large_above(db: Db, board_id: i64, start: i64) -> bool {
    forall|k: nat|
        #[trigger] ancestor(db, board_id, start, k) is Some ==> !is_large(
            db,
            board_id,
            ancestor(db, board_id, start, k)->0,
        )
}

/// Brings the large tasks on the chain of parents from `start` up to date,
/// the nearest first. A chain that comes back to a task it passed is a
/// `dependency` error.
#[verifier::loop_isolation(false)]
pub fn sync_large_ancestors(
    db: &mut Db,
    board_id: i64,
    start: Option<i64>,
    now: i64,
) -> (r: Result<(), CmdError>)
    ensures
        start is None ==> r is Ok && *final(db) == *old(db),
        r matches Err(e) ==> sync_error(e),
        start matches Some(s) && chain_ends(*old(db), board_id, s) && no_large_above(*old(db), board_id, s)
            ==> r is Ok && *final(db) == *old(db),
        start matches Some(s) && resync_fits(*old(db), board_id, s) ==> r is Ok,
        r is Ok ==> status_frame(*old(db), *final(db)),
        r is Ok ==> (start matches Some(s) ==> forall|u: i64|
            large_consistent(*old(db), board_id, u) && !on_chain(*old(db), board_id, s, u)
                ==> #[trigger] large_consistent(*final(db), board_id, u)),
        r is Ok ==> forall|k: int|
            0 <= k < old(db).tasks@.len() && old(db).tasks@[k].size@ != "large"@ ==> #[trigger] final(db).tasks@[k]
                == old(db).tasks@[k],
        r is Ok ==> (start matches Some(s) ==> chain_ends(*old(db), board_id, s)),
        r is Ok ==> (start matches Some(s) ==> forall|k: nat|
            up_to_date(*final(db), board_id, #[trigger] ancestor(*old(db), board_id, s, k))),
        r is Ok ==> forall|v: i64|
            !is_large(*old(db), board_id, v) ==> #[trigger] deps_listed(final(db).dependencies@, v)
                == deps_listed(old(db).dependencies@, v),
        r is Ok ==> forall|v: i64|
            !is_large(*final(db), board_id, v) ==> #[trigger] deps_listed(final(db).dependencies@, v)
                == deps_listed(old(db).dependencies@, v),
        r is Ok ==> (start matches Some(s) ==> forall|k: int|
            0 <= k < old(db).tasks@.len() && !(old(db).tasks@[k].board_id == board_id && on_chain(
                *old(db),
                board_id,
                s,
                old(db).tasks@[k].id,
            )) ==> #[trigger] final(db).tasks@[k] == old(db).tasks@[k]),
        r is Ok && well_formed(*old(db)) ==> well_formed(*final(db)),
        r is Ok ==> crate::store::max_id(crate::store::note_ids(final(db).notes@)) <= crate::store::max_id(
            crate::store::note_ids(old(db).notes@),
        ) + old(db).tasks@.len() + 1,
        r is Ok ==> (start matches Some(s) ==> forall|g: spec_fn(i64, i64) -> bool|
            #[trigger] acyclic(g) && edges_within(*old(db), board_id, g) && children_edges_in(*old(db), board_id, s, g)
                ==> edges_within(*final(db), board_id, g)),
{
    proof {
        assert(db.notes@.take(db.notes@.len() as int) =~= db.notes@);
    }
    let s = match start {
        None => {
            return Ok(());
        },
        Some(s) => s,
    };
    let ghost db0 = *db;
    let ghost all_ids = crate::store::task_ids(db.tasks@).to_set();
    let mut seen: std::collections::HashSet<i64> = std::collections::HashSet::new();
    let mut cursor: Option<i64> = Some(s);
    let ghost mut n: nat = 0;
    let ghost fits = resync_fits(db0, board_id, s);
    let ghost gg = choose|g: spec_fn(i64, i64) -> bool|
        #[trigger] acyclic(g) && edges_within(db0, board_id, g) && children_edges_in(db0, board_id, s, g);
    proof {
        crate::store::task_ids(db0.tasks@).lemma_cardinality_of_set();
        assert(crate::store::task_ids(db0.tasks@).len() == db0.tasks@.len());
        assert(ancestor(db0, board_id, s, 0) == Some(s));
        assert(db.notes@.take(db.notes@.len() as int) =~= db.notes@);
        assert(status_frame(db0, *db));
    }
    while cursor.is_some()
        invariant
            cursor == ancestor(db0, board_id, s, n),
            forall|k: nat| k < n ==> (#[trigger] ancestor(db0, board_id, s, k)) is Some
                && seen@.contains(ancestor(db0, board_id, s, k)->0),
            forall|x: i64| seen@.contains(x) ==> exists|k: nat| k < n && #[trigger] ancestor(db0, board_id, s, k) == Some(x),
            forall|k: nat| k < n ==> (cursor == #[trigger] ancestor(db0, board_id, s, k) || up_to_date(
                *db,
                board_id,
                ancestor(db0, board_id, s, k),
            )),
            status_frame(db0, *db),
            well_formed(db0) ==> well_formed(*db),
            forall|v: i64|
                !is_large(db0, board_id, v) ==> #[trigger] deps_listed(db.dependencies@, v)
                    == deps_listed(db0.dependencies@, v),
            forall|k: int|
                0 <= k < db0.tasks@.len() && !(db0.tasks@[k].board_id == board_id && exists|j: nat|
                    j < n && #[trigger] ancestor(db0, board_id, s, j) == Some(db0.tasks@[k].id))
                    ==> #[trigger] db.tasks@[k] == db0.tasks@[k],
            chain_ends(db0, board_id, s) && no_large_above(db0, board_id, s) ==> *db == db0,
            forall|u: i64|
                large_consistent(db0, board_id, u) && !on_chain(db0, board_id, s, u)
                    ==> #[trigger] large_consistent(*db, board_id, u),
            forall|k: int|
                0 <= k < db0.tasks@.len() && db0.tasks@[k].size@ != "large"@ ==> #[trigger] db.tasks@[k]
                    == db0.tasks@[k],
            seen@.finite(),
            all_ids.finite(),
            all_ids == crate::store::task_ids(db0.tasks@).to_set(),
            all_ids.len() <= db0.tasks@.len(),
            fits == resync_fits(db0, board_id, s),
            fits ==> acyclic(gg) && children_edges_in(db0, board_id, s, gg) && edges_within(*db, board_id, gg),
            fits ==> notes_room(db0) && chain_ends(db0, board_id, s),
            crate::store::max_id(crate::store::note_ids(db.notes@)) <= crate::store::max_id(
                crate::store::note_ids(db0.notes@),
            ) + seen@.len(),
            cursor is Some ==> seen@.subset_of(all_ids),
            cursor is None ==> seen@.len() <= all_ids.len() + 1,
            forall|g: spec_fn(i64, i64) -> bool|
                #[trigger] acyclic(g) && edges_within(db0, board_id, g) && children_edges_in(db0, board_id, s, g)
                    ==> edges_within(*db, board_id, g),
        decreases all_ids.difference(seen@).len() + if cursor is Some { 1nat } else { 0nat },
    {
        let current = cursor.unwrap();
        let ghost before = seen@;
        if !seen.insert(current) {
            proof {
                if chain_ends(db0, board_id, s) {
                    let k = choose|k: nat| k < n && #[trigger] ancestor(db0, board_id, s, k) == Some(current);
                    assert forall|q: nat| q <= n implies (#[trigger] ancestor(db0, board_id, s, q)) is Some by {
                        if q < n {
                            assert(ancestor(db0, board_id, s, q) is Some);
                        }
                    }
                    let m = choose|m: nat| #[trigger] ancestor(db0, board_id, s, m) is None;
                    lemma_ancestor_cycle_never_ends(db0, board_id, s, k, n, m);
                }
            }
            return Err(app_err_str("dependency", "parent cycle detected"));
        }
        let ghost pre = *db;
        proof {
            lemma_same_shape_parent(db0, pre, board_id, current);
            if fits && task_in_board(pre.tasks@, board_id, current) && task_at(pre, board_id, current).size@
                == "large"@ {
                lemma_sync_step_fits(db0, pre, board_id, s, n, current, gg);
                lemma_same_shape_task_at(db0, pre, board_id, current);
                let j = choose|j: int| 0 <= j < db0.tasks@.len() && db0.tasks@[j].id == current && db0.tasks@[j].board_id == board_id;
                assert(crate::store::task_ids(db0.tasks@)[j] == current);
                assert(all_ids.contains(current));
                assert(seen@ == before.insert(current));
                assert(seen@.subset_of(all_ids));
                vstd::set_lib::lemma_len_subset(seen@, all_ids);
                assert(seen@.len() == before.len() + 1);
            }
        }
        let next = sync_large_task(db, board_id, current, now)?;
        proof {
            let post = *db;
            assert forall|g: spec_fn(i64, i64) -> bool|
                #[trigger] acyclic(g) && edges_within(db0, board_id, g) && children_edges_in(db0, board_id, s, g)
                    implies edges_within(post, board_id, g) by {
                if task_in_board(pre.tasks@, board_id, current) && task_at(pre, board_id, current).size@ == "large"@ {
                    lemma_sync_step_fits(db0, pre, board_id, s, n, current, g);
                    lemma_sync_frame_status_frame(pre, post, board_id, current);
                    lemma_sync_step_edges(pre, post, board_id, current, sorted_ids(child_ids(pre.tasks@, board_id, current)), g);
                }
            }
            assert(seen@ == before.insert(current));
            assert(seen@.len() == before.len() + 1);
            vstd::set_lib::lemma_len_subset(before, all_ids);
            if post.notes@ != pre.notes@ {
                lemma_note_push_max(pre.notes@, post.notes@.last());
            }
            if fits {
                assert(seen@.len() == before.len() + 1);
                if task_in_board(pre.tasks@, board_id, current) && task_at(pre, board_id, current).size@
                    == "large"@ {
                    let nd = sorted_ids(child_ids(pre.tasks@, board_id, current));
                    lemma_sync_frame_status_frame(pre, post, board_id, current);
                    lemma_sync_step_edges(pre, post, board_id, current, nd, gg);
                    if post.notes@ != pre.notes@ {
                        lemma_note_push_max(pre.notes@, post.notes@.last());
                    }
                }
            }
            assert(next == parent_in_board(db0, board_id, current));
            if task_in_board(db0.tasks@, board_id, current) {
                let j = choose|j: int| 0 <= j < db0.tasks@.len() && db0.tasks@[j].id == current && db0.tasks@[j].board_id == board_id;
                assert(crate::store::task_ids(db0.tasks@)[j] == current);
                assert(all_ids.contains(current));
                assert(all_ids.difference(seen@) =~= all_ids.difference(before).remove(current));
            } else {
                assert(next is None);
                assert(all_ids.difference(seen@).subset_of(all_ids.difference(before)));
                vstd::set_lib::lemma_len_subset(all_ids.difference(seen@), all_ids.difference(before));
            }
            assert(ancestor(db0, board_id, s, n + 1) == next);
            if next != Some(current) {
                if task_in_board(pre.tasks@, board_id, current) && task_at(pre, board_id, current).size@ == "large"@ {
                    lemma_same_shape_child_ids(db0.tasks@, pre.tasks@, board_id, current);
                }
                lemma_sync_makes_consistent(pre, post, board_id, current);
            }
            assert forall|k: nat| k < n + 1 implies (next == #[trigger] ancestor(db0, board_id, s, k) || up_to_date(
                post,
                board_id,
                ancestor(db0, board_id, s, k),
            )) by {
                if k < n {
                    let u = ancestor(db0, board_id, s, k)->0;
                    assert(before.contains(u));
                    if u != current && next != Some(u) {
                        assert(large_consistent(pre, board_id, u));
                        lemma_sync_keeps_consistent(pre, post, board_id, current, u);
                    }
                }
            }
            assert forall|u: i64|
                large_consistent(db0, board_id, u) && !on_chain(db0, board_id, s, u) implies #[trigger] large_consistent(
                post,
                board_id,
                u,
            ) by {
                assert(ancestor(db0, board_id, s, n) == Some(current));
                assert(u != current);
                if next == Some(u) {
                    assert(ancestor(db0, board_id, s, n + 1) == Some(u));
                }
                lemma_sync_keeps_consistent(pre, post, board_id, current, u);
            }
            lemma_status_frame_step(db0, pre, post, board_id, current);
            lemma_same_shape_task_at(db0, pre, board_id, current);
            assert forall|v: i64| !is_large(db0, board_id, v) implies #[trigger] deps_listed(post.dependencies@, v)
                == deps_listed(db0.dependencies@, v) by {
                assert(deps_listed(pre.dependencies@, v) == deps_listed(db0.dependencies@, v));
            }
            assert forall|k: int|
                0 <= k < db0.tasks@.len() && !(db0.tasks@[k].board_id == board_id && exists|j: nat|
                    j < n + 1 && #[trigger] ancestor(db0, board_id, s, j) == Some(db0.tasks@[k].id))
                    implies #[trigger] post.tasks@[k] == db0.tasks@[k] by {
                if exists|j: nat| j < n && #[trigger] ancestor(db0, board_id, s, j) == Some(db0.tasks@[k].id) {
                    let j = choose|j: nat| j < n && #[trigger] ancestor(db0, board_id, s, j) == Some(db0.tasks@[k].id);
                    assert(j < n + 1);
                }
                assert(pre.tasks@[k] == db0.tasks@[k]);
                if db0.tasks@[k].board_id == board_id {
                    assert(ancestor(db0, board_id, s, n) == Some(current));
                    assert(db0.tasks@[k].id != current);
                }
            }
            n = n + 1;
        }
        cursor = next;
    }
    proof {
        assert(ancestor(db0, board_id, s, n) is None);
        assert(chain_ends(db0, board_id, s));
        assert forall|v: i64| !is_large(*db, board_id, v) implies #[trigger] deps_listed(db.dependencies@, v)
            == deps_listed(db0.dependencies@, v) by {
            lemma_same_shape_task_at(db0, *db, board_id, v);
        }
        assert forall|k: nat| up_to_date(*db, board_id, #[trigger] ancestor(db0, board_id, s, k)) by {
            if k >= n {
                lemma_ancestor_none_stays(db0, board_id, s, n, k);
            }
        }
        assert forall|k: int|
            0 <= k < db0.tasks@.len() && !(db0.tasks@[k].board_id == board_id && on_chain(
                db0,
                board_id,
                s,
                db0.tasks@[k].id,
            )) implies #[trigger] db.tasks@[k] == db0.tasks@[k] by {
            if exists|j: nat| j < n && #[trigger] ancestor(db0, board_id, s, j) == Some(db0.tasks@[k].id) {
                let j = choose|j: nat| j < n && #[trigger] ancestor(db0, board_id, s, j) == Some(db0.tasks@[k].id);
                assert(on_chain(db0, board_id, s, db0.tasks@[k].id));
            }
        }
    }
    Ok(())
}

} // verus!
