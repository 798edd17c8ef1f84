use vstd::prelude::*;

use crate::graph::Graph;
use crate::marker::GraphType;

verus! {

/// A walk through the graph: a non-empty sequence of keys, each present in
/// the graph, with an edge from each key to the next.
pub open spec fn is_path<Value, Type: GraphType>(g: Graph<Value, Type>, p: Seq<i64>) -> bool {
    &&& p.len() > 0
    &&& forall|i: int| 0 <= i < p.len() ==> g.spec_contains(#[trigger] p[i])
    &&& forall|i: int| 0 <= i < p.len() - 1 ==> g.spec_has_edge(#[trigger] p[i], p[i + 1])
}

/// Key `k` can be reached from key `s` by following edges; in particular `s`
/// reaches itself exactly when it is present in the graph.
pub open spec fn reachable<Value, Type: GraphType>(g: Graph<Value, Type>, s: i64, k: i64) -> bool {
    exists|p: Seq<i64>| #[trigger] is_path(g, p) && p[0] == s && p.last() == k
}

/// A present key reaches itself, by the one-step path.
pub proof fn lemma_reachable_refl<Value, Type: GraphType>(g: Graph<Value, Type>, s: i64)
    requires
        g.spec_contains(s),
    ensures
        reachable(g, s, s),
{
    let p = seq![s];
    assert(p.len() == 1 && p[0] == s && p.last() == s);
    assert(is_path(g, p));
}

/// Following one more edge from a reachable key reaches its target.
pub proof fn lemma_reachable_step<Value, Type: GraphType>(
    g: Graph<Value, Type>,
    s: i64,
    v: i64,
    w: i64,
)
    requires
        reachable(g, s, v),
        g.spec_has_edge(v, w),
        g.spec_contains(w),
    ensures
        reachable(g, s, w),
{
    let p = choose|p: Seq<i64>| #[trigger] is_path(g, p) && p[0] == s && p.last() == v;
    let q = p.push(w);
    assert(q.last() == w);
    assert(q[0] == s);
    assert forall|i: int| 0 <= i < q.len() implies g.spec_contains(#[trigger] q[i]) by {
        if i < p.len() {
            assert(q[i] == p[i]);
        }
    }
    assert forall|i: int| 0 <= i < q.len() - 1 implies g.spec_has_edge(#[trigger] q[i], q[i + 1])
    by {
        if i < p.len() - 1 {
            assert(q[i] == p[i] && q[i + 1] == p[i + 1]);
        } else {
            assert(q[i] == p.last() && q[i + 1] == w);
        }
    }
    assert(is_path(g, q));
}

/// Walking a path whose first key lies in a set that is closed under following
/// edges never leaves the set.
proof fn lemma_path_stays_in_closed_set<Value, Type: GraphType>(
    g: Graph<Value, Type>,
    visited: Seq<i64>,
    p: Seq<i64>,
)
    requires
        is_path(g, p),
        visited.contains(p[0]),
        forall|v: i64, w: i64|
            visited.contains(v) && #[trigger] g.spec_has_edge(v, w) && g.spec_contains(w)
                ==> visited.contains(w),
    ensures
        visited.contains(p.last()),
    decreases p.len(),
{
    if p.len() == 1 {
    } else {
        assert(g.spec_has_edge(p[0], p[1]));
        assert(g.spec_contains(p[1]));
        assert(visited.contains(p[1]));
        let q = p.drop_first();
        assert(q[0] == p[1]);
        assert forall|i: int| 0 <= i < q.len() implies g.spec_contains(#[trigger] q[i]) by {
            assert(q[i] == p[i + 1]);
        }
        assert forall|i: int| 0 <= i < q.len() - 1 implies g.spec_has_edge(
            #[trigger] q[i],
            q[i + 1],
        ) by {
            assert(q[i] == p[i + 1] && q[i + 1] == p[i + 2]);
        }
        assert(is_path(g, q));
        lemma_path_stays_in_closed_set(g, visited, q);
        assert(q.last() == p.last());
    }
}

/// A set of keys that holds the start (when present) and is closed under
/// following edges holds everything reachable from the start.
pub proof fn lemma_closed_set_holds_reachable<Value, Type: GraphType>(
    g: Graph<Value, Type>,
    s: i64,
    visited: Seq<i64>,
)
    requires
        g.spec_contains(s) ==> visited.contains(s),
        forall|v: i64, w: i64|
            visited.contains(v) && #[trigger] g.spec_has_edge(v, w) && g.spec_contains(w)
                ==> visited.contains(w),
    ensures
        forall|k: i64| reachable(g, s, k) ==> visited.contains(k),
{
    assert forall|k: i64| reachable(g, s, k) implies visited.contains(k) by {
        let p = choose|p: Seq<i64>| #[trigger] is_path(g, p) && p[0] == s && p.last() == k;
        assert(g.spec_contains(p[0]));
        lemma_path_stays_in_closed_set(g, visited, p);
    }
}

/// The targets of an adjacency list that are not yet visited, in adjacency
/// order.
pub open spec fn unvisited_targets(adj: Seq<crate::edge::Edge>, visited: Seq<i64>) -> Seq<i64>
    decreases adj.len(),
{
    if adj.len() == 0 {
        Seq::empty()
    } else {
        let rest = unvisited_targets(adj.drop_last(), visited);
        if !visited.contains(adj.last().to) {
            rest.push(adj.last().to)
        } else {
            rest
        }
    }
}

/// The keys a freshly visited vertex adds to the frontier: its edge targets
/// in adjacency order, those already visited left out.
pub open spec fn frontier_additions<Value, Type: GraphType>(
    g: Graph<Value, Type>,
    k: i64,
    visited: Seq<i64>,
) -> Seq<i64> {
    unvisited_targets(g.spec_vertex(k).spec_adj(), visited)
}

/// Taking one more edge into account extends the unvisited targets by its
/// target exactly when that target is not visited.
pub proof fn lemma_unvisited_targets_step(
    adj: Seq<crate::edge::Edge>,
    visited: Seq<i64>,
    i: int,
)
    requires
        0 <= i < adj.len(),
    ensures
        unvisited_targets(adj.take(i + 1), visited) == if !visited.contains(adj[i].to) {
            unvisited_targets(adj.take(i), visited).push(adj[i].to)
        } else {
            unvisited_targets(adj.take(i), visited)
        },
{
    assert(adj.take(i + 1).drop_last() =~= adj.take(i));
    assert(adj.take(i + 1).last() == adj[i]);
}

/// Whether `k` lies in the keys collected so far.
pub(crate) fn seen(keys: &Vec<i64>, k: i64) -> (r: bool)
    ensures
        r == keys@.contains(k),
{
    let n = keys.len();
    let mut i: usize = 0;
    while i < n
        invariant
            n == keys@.len(),
            0 <= i <= n,
            forall|j: int| 0 <= j < i ==> keys@[j] != k,
        decreases n - i,
    {
        if keys[i] == k {
            assert(keys@[i as int] == k);
            return true;
        }
        i += 1;
    }
    assert(!keys@.contains(k));
    false
}

} // verus!
