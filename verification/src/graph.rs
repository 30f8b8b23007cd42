//! The dependency graph of a board's tasks, and reachability in it.
use vstd::prelude::*;

use std::collections::{HashMap, HashSet};

use crate::store::{find_task_in_board, task_in_board, Db, Dependency, TaskRow};

verus! {

broadcast use vstd::std_specs::hash::group_hash_axioms;

/// The edges of an adjacency map: `a` depends directly on `b`.
pub open spec fn graph_edges(g: Map<i64, Vec<i64>>) -> spec_fn(i64, i64) -> bool {
    |a: i64, b: i64| g.contains_key(a) && g[a]@.contains(b)
}

/// `a` depends directly on `b` in the adjacency map `g`.
pub open spec fn is_edge(g: spec_fn(i64, i64) -> bool, a: i64, b: i64) -> bool {
    g(a, b)
}

/// The `i`-th step of `p` follows an edge of `g`.
pub open spec fn step_ok(g: spec_fn(i64, i64) -> bool, p: Seq<i64>, i: int) -> bool {
    is_edge(g, p[i], p[i + 1])
}

/// `p` is a path along the edges `g` from `a` to `b`.
pub open spec fn is_path(g: spec_fn(i64, i64) -> bool, p: Seq<i64>, a: i64, b: i64) -> bool {
    &&& p.len() >= 1
    &&& p[0] == a
    &&& p.last() == b
    &&& forall|i: int| 0 <= i < p.len() - 1 ==> #[trigger] step_ok(g, p, i)
}

/// `b` can be reached from `a` by following edges of `g` (in no steps when
/// `a == b`).
pub open spec fn reaches(g: spec_fn(i64, i64) -> bool, a: i64, b: i64) -> bool {
    exists|p: Seq<i64>| #[trigger] is_path(g, p, a, b)
}

/// Every edge of `g` that leaves a node of `c` ends in `c`.
pub open spec fn closed_under(g: spec_fn(i64, i64) -> bool, c: Set<i64>) -> bool {
    forall|x: i64, y: i64| #![trigger is_edge(g, x, y)] c.contains(x) && is_edge(g, x, y) ==> c.contains(y)
}

/// Whatever a path from a node of a closed set reaches lies in the set.
pub proof fn lemma_closed_contains_path_end(g: spec_fn(i64, i64) -> bool, c: Set<i64>, p: Seq<i64>, a: i64, b: i64)
    requires
        is_path(g, p, a, b),
        c.contains(a),
        closed_under(g, c),
    ensures
        c.contains(b),
    decreases p.len(),
{
    if p.len() > 1 {
        let q = p.drop_last();
        assert forall|i: int| 0 <= i < q.len() - 1 implies #[trigger] step_ok(g, q, i) by {
            assert(step_ok(g, p, i));
        }
        lemma_closed_contains_path_end(g, c, q, a, q.last());
        assert(step_ok(g, p, p.len() - 2));
    }
}

/// A step from `a` to `n` followed by a path from `n` is a path from `a`.
pub proof fn lemma_path_prepend(g: spec_fn(i64, i64) -> bool, p: Seq<i64>, a: i64, n: i64, b: i64)
    requires
        is_path(g, p, n, b),
        is_edge(g, a, n),
    ensures
        is_path(g, seq![a] + p, a, b),
        reaches(g, a, b),
{
    let q = seq![a] + p;
    assert forall|i: int| 0 <= i < q.len() - 1 implies #[trigger] step_ok(g, q, i) by {
        if i > 0 {
            assert(step_ok(g, p, i - 1));
            assert(q[i] == p[i - 1]);
            assert(q[i + 1] == p[i]);
        }
    }
    assert(is_path(g, q, a, b));
}

/// Depth-first search from `start` for `target`, skipping the nodes in
/// `seen` and adding each node it visits to it. When it finds `target`,
/// a path leads there. When it does not, `start` is in `seen`, `target` was
/// not added, and every node that was added has all its successors in
/// `seen`.
pub fn reachable(
    graph: &HashMap<i64, Vec<i64>>,
    start: i64,
    target: i64,
    seen: &mut HashSet<i64>,
) -> (r: bool)
    ensures
        old(seen)@.subset_of(final(seen)@),
        r ==> reaches(graph_edges(graph@), start, target),
        !r ==> start != target,
        !r ==> final(seen)@.contains(start),
        !r ==> !(final(seen)@.contains(target) && !old(seen)@.contains(target)),
        !r ==> forall|x: i64, y: i64|
            #![trigger is_edge(graph_edges(graph@), x, y), final(seen)@.contains(x)]
            final(seen)@.contains(x) && !old(seen)@.contains(x) && is_edge(graph_edges(graph@), x, y)
                ==> final(seen)@.contains(y),
    decreases graph@.dom().difference(old(seen)@).len(),
{
    if start == target {
        proof {
            assert(is_path(graph_edges(graph@), seq![start], start, target));
        }
        return true;
    }
    proof {
        vstd::std_specs::hash::axiom_hashmap_view_finite_dom(*graph);
    }
    let ghost s0 = seen@;
    if !seen.insert(start) {
        return false;
    }
    let ghost s_mid = seen@;
    match graph.get(&start) {
        None => {
            return false;
        },
        Some(neighbors) => {
            proof {
                let d0 = graph@.dom().difference(s0);
                assert(graph@.dom().difference(s_mid) =~= d0.remove(start));
            }
            let mut i: usize = 0;
            while i < neighbors.len()
                invariant
                    i <= neighbors@.len(),
                    graph@.contains_key(start),
                    graph@[start] == *neighbors,
                    s0.subset_of(s_mid),
                    s_mid == s0.insert(start),
                    !s0.contains(start),
                    start != target,
                    graph@.dom().finite(),
                    s_mid.subset_of(seen@),
                    s0.subset_of(seen@),
                    s0 == old(seen)@,
                    forall|j: int| 0 <= j < i ==> seen@.contains(#[trigger] neighbors@[j]),
                    !(seen@.contains(target) && !s0.contains(target)),
                    forall|x: i64, y: i64|
                        #![trigger is_edge(graph_edges(graph@), x, y), seen@.contains(x)]
                        seen@.contains(x) && !s_mid.contains(x) && is_edge(graph_edges(graph@), x, y)
                            ==> seen@.contains(y),
                decreases neighbors@.len() - i,
            {
                let n = neighbors[i];
                let ghost before = seen@;
                proof {
                    let d0 = graph@.dom().difference(s0);
                    assert(d0.finite());
                    assert(d0.contains(start));
                    assert(d0.remove(start).len() == d0.len() - 1);
                    assert forall|x: i64| graph@.dom().difference(before).contains(x) implies d0.remove(start).contains(x) by {
                        assert(!before.contains(x));
                        assert(!s_mid.contains(x));
                    }
                    assert(graph@.dom().difference(before).subset_of(d0.remove(start)));
                    vstd::set_lib::lemma_len_subset(graph@.dom().difference(before), d0.remove(start));
                }
                if reachable(graph, n, target, seen) {
                    proof {
                        assert(is_edge(graph_edges(graph@), start, n)) by {
                            assert(neighbors@[i as int] == n);
                        }
                        let p = choose|p: Seq<i64>| #[trigger] is_path(graph_edges(graph@), p, n, target);
                        lemma_path_prepend(graph_edges(graph@), p, start, n, target);
                    }
                    return true;
                }
                proof {
                    assert forall|x: i64, y: i64|
                        #![trigger is_edge(graph_edges(graph@), x, y), seen@.contains(x)]
                        seen@.contains(x) && !s_mid.contains(x) && is_edge(graph_edges(graph@), x, y)
                            implies seen@.contains(y) by {
                        if before.contains(x) {
                            assert(before.contains(y));
                        }
                    }
                }
                i = i + 1;
            }
            proof {
                assert forall|x: i64, y: i64|
                    #![trigger is_edge(graph_edges(graph@), x, y), seen@.contains(x)]
                    seen@.contains(x) && !s0.contains(x) && is_edge(graph_edges(graph@), x, y)
                        implies seen@.contains(y) by {
                    if x == start {
                        let j = choose|j: int| 0 <= j < neighbors@.len() && neighbors@[j] == y;
                        assert(seen@.contains(neighbors@[j]));
                    }
                }
            }
            return false;
        },
    }
}

/// Whether `target` can be reached from `start` in `graph`.
pub fn has_path(graph: &HashMap<i64, Vec<i64>>, start: i64, target: i64) -> (r: bool)
    ensures
        r == reaches(graph_edges(graph@), start, target),
{
    let mut seen: HashSet<i64> = HashSet::new();
    let r = reachable(graph, start, target, &mut seen);
    proof {
        if !r && reaches(graph_edges(graph@), start, target) {
            let p = choose|p: Seq<i64>| #[trigger] is_path(graph_edges(graph@), p, start, target);
            assert(closed_under(graph_edges(graph@), seen@)) by {
                assert forall|x: i64, y: i64| #![trigger is_edge(graph_edges(graph@), x, y)] seen@.contains(x) && is_edge(graph_edges(graph@), x, y) implies seen@.contains(y) by {
                }
            }
            lemma_closed_contains_path_end(graph_edges(graph@), seen@, p, start, target);
        }
    }
    r
}

/// A part of a path, from position `i` to position `j`, is a path.
pub proof fn lemma_subpath(g: spec_fn(i64, i64) -> bool, p: Seq<i64>, a: i64, b: i64, i: int, j: int)
    requires
        is_path(g, p, a, b),
        0 <= i <= j < p.len(),
    ensures
        is_path(g, p.subrange(i, j + 1), p[i], p[j]),
{
    let q = p.subrange(i, j + 1);
    assert forall|k: int| 0 <= k < q.len() - 1 implies #[trigger] step_ok(g, q, k) by {
        assert(step_ok(g, p, i + k));
        assert(q[k] == p[i + k]);
        assert(q[k + 1] == p[i + k + 1]);
    }
}

/// A path from `a` to `m` followed by a path from `m` to `b` is a path from
/// `a` to `b`.
pub proof fn lemma_path_concat(g: spec_fn(i64, i64) -> bool, p: Seq<i64>, q: Seq<i64>, a: i64, m: i64, b: i64)
    requires
        is_path(g, p, a, m),
        is_path(g, q, m, b),
    ensures
        is_path(g, p + q.drop_first(), a, b),
        reaches(g, a, b),
{
    let r = p + q.drop_first();
    assert forall|k: int| 0 <= k < r.len() - 1 implies #[trigger] step_ok(g, r, k) by {
        if k < p.len() - 1 {
            assert(step_ok(g, p, k));
            assert(r[k] == p[k] && r[k + 1] == p[k + 1]);
        } else {
            let t = k - (p.len() - 1);
            assert(step_ok(g, q, t));
            if k == p.len() - 1 {
                assert(r[k] == p.last());
                assert(q[0] == m);
            } else {
                assert(r[k] == q[t]);
            }
            assert(r[k + 1] == q[t + 1]);
        }
    }
    if q.len() == 1 {
        assert(r =~= p);
    } else {
        assert(r.last() == q.last());
    }
    assert(is_path(g, r, a, b));
}

/// No edge of `g` closes a cycle: from the end of an edge its start cannot
/// be reached.
pub open spec fn acyclic(g: spec_fn(i64, i64) -> bool) -> bool {
    forall|a: i64, b: i64| #[trigger] is_edge(g, a, b) ==> !reaches(g, b, a)
}

/// A path in `g` that leaves no node `t` is a path in `h` when `g` and `h`
/// have the same edges out of every node other than `t`.
pub proof fn lemma_path_avoiding(
    g: spec_fn(i64, i64) -> bool,
    h: spec_fn(i64, i64) -> bool,
    t: i64,
    p: Seq<i64>,
    a: i64,
    b: i64,
)
    requires
        is_path(g, p, a, b),
        forall|k: int| 0 <= k < p.len() - 1 ==> p[k] != t,
        forall|x: i64, y: i64| x != t && #[trigger] g(x, y) ==> h(x, y),
    ensures
        is_path(h, p, a, b),
{
    assert forall|k: int| 0 <= k < p.len() - 1 implies #[trigger] step_ok(h, p, k) by {
        assert(step_ok(g, p, k));
    }
}

/// A path in `g` is a path in `h` when every edge of `g` is one of `h`.
pub proof fn lemma_path_sub(
    g: spec_fn(i64, i64) -> bool,
    h: spec_fn(i64, i64) -> bool,
    p: Seq<i64>,
    a: i64,
    b: i64,
)
    requires
        is_path(g, p, a, b),
        forall|x: i64, y: i64| #[trigger] g(x, y) ==> h(x, y),
    ensures
        is_path(h, p, a, b),
{
    assert forall|k: int| 0 <= k < p.len() - 1 implies #[trigger] step_ok(h, p, k) by {
        assert(step_ok(g, p, k));
    }
}


/// `g` with one more edge, from `a0` to `b0`.
pub open spec fn with_edge(g: spec_fn(i64, i64) -> bool, a0: i64, b0: i64) -> spec_fn(i64, i64) -> bool {
    |x: i64, y: i64| g(x, y) || (x == a0 && y == b0)
}

/// A node without edges out of it reaches only itself.
pub proof fn lemma_sink_reaches_itself(g: spec_fn(i64, i64) -> bool, n: i64, x: i64)
    requires
        forall|y: i64| !#[trigger] g(n, y),
        reaches(g, n, x),
    ensures
        x == n,
{
    let p = choose|p: Seq<i64>| #[trigger] is_path(g, p, n, x);
    if p.len() > 1 {
        assert(step_ok(g, p, 0));
    }
}

/// What `b0` reaches once an edge from `a0` to `b0` is added, it reached
/// before, when it did not reach `a0`.
proof fn lemma_with_edge_reach(g: spec_fn(i64, i64) -> bool, a0: i64, b0: i64, x: i64)
    requires
        !reaches(g, b0, a0),
        reaches(with_edge(g, a0, b0), b0, x),
    ensures
        reaches(g, b0, x),
{
    let h = with_edge(g, a0, b0);
    let r = Set::new(|z: i64| reaches(g, b0, z));
    assert(is_path(g, seq![b0], b0, b0));
    assert(r.contains(b0));
    assert forall|u: i64, v: i64| #![trigger is_edge(h, u, v)] r.contains(u) && is_edge(h, u, v) implies r.contains(v) by {
        if g(u, v) {
            let pu = choose|q: Seq<i64>| #[trigger] is_path(g, q, b0, u);
            let uv = seq![u, v];
            assert(is_path(g, uv, u, v)) by {
                assert forall|j: int| 0 <= j < uv.len() - 1 implies #[trigger] step_ok(g, uv, j) by {}
            }
            lemma_path_concat(g, pu, uv, b0, u, v);
        } else {
            assert(u == a0);
        }
    }
    assert(closed_under(h, r));
    let p = choose|q: Seq<i64>| #[trigger] is_path(h, q, b0, x);
    lemma_closed_contains_path_end(h, r, p, b0, x);
}

/// Adding an edge from `a0` to `b0` keeps a graph without cycles so when
/// `b0` does not reach `a0`.
pub proof fn lemma_with_edge_acyclic(g: spec_fn(i64, i64) -> bool, a0: i64, b0: i64)
    requires
        acyclic(g),
        !reaches(g, b0, a0),
    ensures
        acyclic(with_edge(g, a0, b0)),
{
    let h = with_edge(g, a0, b0);
    assert forall|a: i64, b: i64| #[trigger] is_edge(h, a, b) implies !reaches(h, b, a) by {
        if reaches(h, b, a) {
            let q = choose|q: Seq<i64>| #[trigger] is_path(h, q, b, a);
            if a == a0 && b == b0 {
                lemma_with_edge_reach(g, a0, b0, a0);
            } else if exists|k: int| #![trigger q[k]] 0 <= k < q.len() - 1 && q[k] == a0 && q[k + 1] == b0 {
                let k = choose|k: int| #![trigger q[k]] 0 <= k < q.len() - 1 && q[k] == a0 && q[k + 1] == b0;
                lemma_subpath(h, q, b, a, k + 1, q.len() - 1);
                lemma_subpath(h, q, b, a, 0, k);
                let front = q.subrange(0, k + 1);
                let tail = q.subrange(k + 1, q.len() as int);
                lemma_path_prepend(h, front, a, b, a0);
                lemma_path_concat(h, tail, seq![a] + front, b0, a, a0);
                lemma_with_edge_reach(g, a0, b0, a0);
            } else {
                assert forall|k: int| 0 <= k < q.len() - 1 implies #[trigger] step_ok(g, q, k) by {
                    assert(step_ok(h, q, k));
                }
                assert(is_path(g, q, b, a));
                assert(is_edge(g, a, b));
            }
        }
    }
}

} // verus!
