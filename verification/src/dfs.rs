use vstd::prelude::*;

use crate::graph::Graph;
use crate::marker::GraphType;
use crate::vertex::Vertex;
use crate::reach::{
    frontier_additions, lemma_closed_set_holds_reachable, lemma_reachable_refl,
    lemma_reachable_step, lemma_unvisited_targets_step, reachable, seen, unvisited_targets,
};

verus! {

/// A depth-first walk over the graph. Starting from one key, it lazily yields
/// the key of every vertex reachable from it, each exactly once, deepest-first:
/// the frontier is a stack, and a vertex's edge targets are pushed in adjacency
/// order, so the last edge is followed first.
///
/// A key is marked visited when it is popped and accepted, so the stack may
/// hold several pending entries for one key; the extra entries are discarded
/// when popped.
pub struct DfsIterator {
    stack: Vec<i64>,
    visited: Vec<i64>,
    start: Ghost<i64>,
}


/// The depth-first frontier discipline, one accepted key per step: pending
/// keys are popped from the top of the stack; an already-yielded or absent
/// key is discarded; the first acceptable key is yielded, with its unvisited
/// edge targets pushed in adjacency order, so that the target of the last
/// edge is the next to be considered.
pub open spec fn dfs_step<Value, Type: GraphType>(
    g: Graph<Value, Type>,
    stack: Seq<i64>,
    visited: Seq<i64>,
) -> (Option<i64>, Seq<i64>)
    decreases stack.len(),
{
    if stack.len() == 0 {
        (None::<i64>, stack)
    } else {
        let k = stack.last();
        let rest = stack.drop_last();
        if visited.contains(k) || !g.spec_contains(k) {
            dfs_step(g, rest, visited)
        } else {
            (Some(k), rest + frontier_additions(g, k, visited.push(k)))
        }
    }
}

impl DfsIterator {
    /// The pending keys, the last being the next to be considered.
    pub closed spec fn spec_stack(self) -> Seq<i64> {
        self.stack@
    }

    /// The keys yielded so far, in yield order.
    pub closed spec fn spec_visited(self) -> Seq<i64> {
        self.visited@
    }

    /// The key the walk started from.
    pub closed spec fn spec_start(self) -> i64 {
        self.start@
    }

    /// What holds of the walk between steps over the (unchanged) graph:
    /// every yielded key is reachable from the start and was yielded once;
    /// every pending key is the start or the target of an edge of a yielded
    /// vertex; every edge leaving a yielded vertex leads to a yielded or a
    /// pending key; and the start, when present, is yielded or pending.
    pub open spec fn inv<Value, Type: GraphType>(self, g: Graph<Value, Type>) -> bool {
        &&& g.wf()
        &&& self.spec_visited().no_duplicates()
        &&& forall|i: int|
            0 <= i < self.spec_visited().len() ==> reachable(
                g,
                self.spec_start(),
                #[trigger] self.spec_visited()[i],
            )
        &&& forall|i: int|
            0 <= i < self.spec_stack().len() ==> (#[trigger] self.spec_stack()[i])
                == self.spec_start() || exists|v: i64|
                self.spec_visited().contains(v) && #[trigger] g.spec_has_edge(
                    v,
                    self.spec_stack()[i],
                )
        &&& forall|v: i64, w: i64|
            self.spec_visited().contains(v) && #[trigger] g.spec_has_edge(v, w)
                && g.spec_contains(w) ==> self.spec_visited().contains(w)
                || self.spec_stack().contains(w)
        &&& (g.spec_contains(self.spec_start()) ==> self.spec_visited().contains(self.spec_start())
            || self.spec_stack().contains(self.spec_start()))
    }

    /// One step of the walk. Yields the key of a vertex not yielded before,
    /// reachable from the start; or nothing, once every reachable vertex has
    /// been yielded. The step follows `dfs_step` exactly, which pins the
    /// yield order: deepest pending key first.
    pub fn next<Value, Type: GraphType>(&mut self, graph: &Graph<Value, Type>) -> (r: Option<i64>)
        requires
            old(self).inv(*graph),
        ensures
            final(self).inv(*graph),
            final(self).spec_start() == old(self).spec_start(),
            match r {
                Some(k) => {
                    &&& graph.spec_contains(k)
                    &&& reachable(*graph, old(self).spec_start(), k)
                    &&& !old(self).spec_visited().contains(k)
                    &&& final(self).spec_visited() == old(self).spec_visited().push(k)
                },
                None => {
                    &&& final(self).spec_visited() == old(self).spec_visited()
                    &&& final(self).spec_stack().len() == 0
                    &&& forall|k: i64|
                        reachable(*graph, old(self).spec_start(), k) ==> old(
                            self,
                        ).spec_visited().contains(k)
                },
            },
            ({
                let (k0, st) = dfs_step(*graph, old(self).spec_stack(), old(self).spec_visited());
                r == k0 && final(self).spec_stack() == st
            }),
    {
        let ghost orig = *self;
        loop
            invariant
                orig == *old(self),
                self.inv(*graph),
                self.spec_visited() == orig.spec_visited(),
                self.spec_start() == orig.spec_start(),
                dfs_step(*graph, orig.spec_stack(), orig.spec_visited()) == dfs_step(
                    *graph,
                    self.spec_stack(),
                    self.spec_visited(),
                ),
            decreases self.spec_stack().len(),
        {
            let ghost pre = *self;
            if self.stack.len() == 0 {
                proof {
                    lemma_closed_set_holds_reachable(
                        *graph,
                        self.spec_start(),
                        self.spec_visited(),
                    );
                }
                return None;
            }
            let k = self.stack.pop().unwrap();
            proof {
                assert(k == pre.spec_stack().last());
                assert(self.spec_stack() == pre.spec_stack().drop_last());
                assert forall|w: i64| pre.spec_stack().contains(w) implies w == k
                    || self.spec_stack().contains(w) by {
                    let idx = choose|idx: int|
                        0 <= idx < pre.spec_stack().len() && pre.spec_stack()[idx] == w;
                    if idx < pre.spec_stack().len() - 1 {
                        assert(self.spec_stack()[idx] == w);
                    }
                }
            }
            if seen(&self.visited, k) {
                proof {
                    assert(dfs_step(*graph, pre.spec_stack(), pre.spec_visited()) == dfs_step(
                        *graph,
                        self.spec_stack(),
                        self.spec_visited(),
                    ));
                    assert forall|v: i64, w: i64|
                        self.spec_visited().contains(v) && #[trigger] graph.spec_has_edge(v, w)
                            && graph.spec_contains(w) implies self.spec_visited().contains(w)
                        || self.spec_stack().contains(w) by {
                        if !self.spec_visited().contains(w) {
                            assert(pre.spec_stack().contains(w));
                        }
                    }
                }
                continue ;
            }
            match graph.get_vertex(k) {
                None => {
                    proof {
                        assert(!graph.spec_contains(k));
                        assert(dfs_step(*graph, pre.spec_stack(), pre.spec_visited()) == dfs_step(
                            *graph,
                            self.spec_stack(),
                            self.spec_visited(),
                        ));
                        assert forall|v: i64, w: i64|
                            self.spec_visited().contains(v) && #[trigger] graph.spec_has_edge(v, w)
                                && graph.spec_contains(w) implies self.spec_visited().contains(w)
                            || self.spec_stack().contains(w) by {
                            if !self.spec_visited().contains(w) {
                                assert(pre.spec_stack().contains(w));
                                assert(w != k);
                            }
                        }
                        if graph.spec_contains(self.spec_start()) {
                            assert(self.spec_start() != k);
                        }
                    }
                    continue ;
                },
                Some(v) => {
                    proof {
                        // The accepted key is reachable from the start.
                        assert(pre.spec_stack()[pre.spec_stack().len() - 1] == k);
                        if k == self.spec_start() {
                            lemma_reachable_refl(*graph, k);
                        } else {
                            let u = choose|u: i64|
                                pre.spec_visited().contains(u) && #[trigger] graph.spec_has_edge(
                                    u,
                                    k,
                                );
                            let ui = choose|ui: int|
                                0 <= ui < pre.spec_visited().len() && pre.spec_visited()[ui] == u;
                            assert(reachable(*graph, self.spec_start(), u));
                            lemma_reachable_step(*graph, self.spec_start(), u, k);
                        }
                    }
                    let ghost popped = *self;
                    self.visited.push(k);
                    proof {
                        assert(self.spec_visited() == popped.spec_visited().push(k));
                        assert(self.spec_visited()[self.spec_visited().len() - 1] == k);
                        assert forall|w: i64| popped.spec_visited().contains(w) implies self
                            .spec_visited().contains(w) by {
                            let idx = choose|idx: int|
                                0 <= idx < popped.spec_visited().len() && popped.spec_visited()[idx]
                                    == w;
                            assert(self.spec_visited()[idx] == w);
                        }
                        assert(self.spec_visited().contains(k));
                        assert(self.spec_visited().no_duplicates());
                    }
                    let ghost marked = *self;
                    let adj = v.adjancency_list();
                    let m = adj.len();
                    let mut i: usize = 0;
                    proof {
                        assert(adj@.take(0) =~= Seq::<crate::edge::Edge>::empty());
                        assert(unvisited_targets(adj@.take(0), marked.spec_visited())
                            =~= Seq::<i64>::empty());
                        assert(self.spec_stack() =~= popped.spec_stack() + unvisited_targets(
                            adj@.take(0),
                            marked.spec_visited(),
                        ));
                    }
                    while i < m
                        invariant
                            graph.wf(),
                            adj@ == graph.spec_vertex(k).spec_adj(),
                            graph.spec_contains(k),
                            m == adj@.len(),
                            0 <= i <= m,
                            self.spec_stack() == popped.spec_stack() + unvisited_targets(
                                adj@.take(i as int),
                                marked.spec_visited(),
                            ),
                            self.spec_visited() == marked.spec_visited(),
                            self.spec_start() == marked.spec_start(),
                            self.spec_visited().contains(k),
                            forall|j: int|
                                0 <= j < self.spec_stack().len() ==> (#[trigger] self.spec_stack()[
                                j]) == self.spec_start() || exists|v2: i64|
                                    self.spec_visited().contains(v2) && #[trigger] graph
                                        .spec_has_edge(v2, self.spec_stack()[j]),
                            forall|w: i64|
                                marked.spec_stack().contains(w) ==> self.spec_stack().contains(w),
                            forall|j: int|
                                0 <= j < i ==> self.spec_visited().contains(
                                    (#[trigger] adj@[j]).to,
                                ) || self.spec_stack().contains(adj@[j].to),
                        decreases m - i,
                    {
                        let t = adj[i].to();
                        proof {
                            assert(adj@[i as int].to == t);
                            assert(graph.spec_vertex(k).spec_has_edge(t));
                            assert(graph.spec_has_edge(k, t));
                        }
                        proof {
                            lemma_unvisited_targets_step(adj@, marked.spec_visited(), i as int);
                        }
                        if !seen(&self.visited, t) {
                            let ghost before = *self;
                            self.stack.push(t);
                            proof {
                                assert(self.spec_stack() == before.spec_stack().push(t));
                                assert forall|w: i64| before.spec_stack().contains(w) implies self
                                    .spec_stack().contains(w) by {
                                    let idx = choose|idx: int|
                                        0 <= idx < before.spec_stack().len()
                                            && before.spec_stack()[idx] == w;
                                    assert(self.spec_stack()[idx] == w);
                                }
                                assert(self.spec_stack()[self.spec_stack().len() - 1] == t);
                                assert(self.spec_stack().contains(t));
                                assert(self.spec_stack() =~= popped.spec_stack()
                                    + unvisited_targets(
                                    adj@.take(i as int + 1),
                                    marked.spec_visited(),
                                ));
                            }
                        }
                        i += 1;
                    }
                    proof {
                        // Closure: every edge leaving a yielded vertex is covered.
                        assert forall|v2: i64, w: i64|
                            self.spec_visited().contains(v2) && #[trigger] graph.spec_has_edge(
                                v2,
                                w,
                            ) && graph.spec_contains(w) implies self.spec_visited().contains(w)
                            || self.spec_stack().contains(w) by {
                            if v2 == k {
                                let j = graph.spec_vertex(k).spec_edge_index(w);
                                assert(graph.spec_vertex(k).spec_adj()[j].to == w);
                            } else {
                                assert(popped.spec_visited().contains(v2));
                                if !popped.spec_visited().contains(w) {
                                    assert(pre.spec_stack().contains(w));
                                    if w == k {
                                        assert(self.spec_visited().contains(w));
                                    } else {
                                        assert(popped.spec_stack().contains(w));
                                        assert(marked.spec_stack().contains(w));
                                    }
                                }
                            }
                        }
                        if graph.spec_contains(self.spec_start()) {
                            if self.spec_start() != k && !popped.spec_visited().contains(
                                self.spec_start(),
                            ) {
                                assert(pre.spec_stack().contains(self.spec_start())
                                    || pre.spec_visited().contains(self.spec_start()));
                                if pre.spec_stack().contains(self.spec_start()) {
                                    assert(popped.spec_stack().contains(self.spec_start()));
                                    assert(marked.spec_stack().contains(self.spec_start()));
                                }
                            }
                        }
                        assert(!popped.spec_visited().contains(k));
                        // This step followed the frontier discipline exactly.
                        assert(adj@.take(m as int) =~= adj@);
                        assert(marked.spec_visited() == pre.spec_visited().push(k));
                        assert(self.spec_stack() == popped.spec_stack() + frontier_additions(
                            *graph,
                            k,
                            pre.spec_visited().push(k),
                        ));
                        assert(!pre.spec_visited().contains(k));
                        assert(dfs_step(*graph, pre.spec_stack(), pre.spec_visited()) == (
                        Some(k), self.spec_stack()));
                    }
                    return Some(k);
                },
            }
        }
    }
}

/// Traversal completeness and no-duplicate yield: once a walk is exhausted
/// (its frontier is empty), the keys it has yielded are exactly the keys
/// reachable from its start, each yielded once.
pub proof fn lemma_exhausted_walk_yields_reachable<Value, Type: GraphType>(
    it: DfsIterator,
    g: Graph<Value, Type>,
)
    requires
        it.inv(g),
        it.spec_stack().len() == 0,
    ensures
        forall|k: i64| it.spec_visited().contains(k) <==> reachable(g, it.spec_start(), k),
        it.spec_visited().no_duplicates(),
{
    lemma_closed_set_holds_reachable(g, it.spec_start(), it.spec_visited());
    assert forall|k: i64| it.spec_visited().contains(k) implies reachable(g, it.spec_start(), k) by {
        let i = choose|i: int|
            0 <= i < it.spec_visited().len() && it.spec_visited()[i] == k;
        assert(reachable(g, it.spec_start(), it.spec_visited()[i]));
    }
}

impl<Value, Type: GraphType> Graph<Value, Type> {
    /// A depth-first walk over this graph, starting from the vertex stored
    /// under `from`. A start key that is not in the graph gives a walk that is
    /// exhausted at once.
    pub fn dfs(&self, from: i64) -> (it: DfsIterator)
        requires
            self.wf(),
        ensures
            it.inv(*self),
            it.spec_start() == from,
            it.spec_visited() == Seq::<i64>::empty(),
            it.spec_stack() == seq![from],
    {
        let mut stack = Vec::new();
        stack.push(from);
        let it = DfsIterator { stack, visited: Vec::new(), start: Ghost(from) };
        proof {
            assert(it.spec_stack() =~= seq![from]);
            assert(it.spec_visited() =~= Seq::<i64>::empty());
            assert(it.spec_stack()[0] == from);
            assert(it.spec_stack().contains(from));
        }
        it
    }
}

/// The mutating form of the depth-first walk: it hands out exclusive access
/// to each vertex in turn. The keys of a vertex's unvisited edge targets are
/// copied into the frontier before the vertex is yielded, so the caller may
/// change the yielded vertex's value or edges without touching what the walk
/// has already captured. The graph may therefore change between steps; each
/// step speaks of the graph as handed to it.
pub struct DfsIteratorMut {
    stack: Vec<i64>,
    visited: Vec<i64>,
}

impl DfsIteratorMut {
    /// The pending keys, the last being the next to be considered.
    pub closed spec fn spec_stack(self) -> Seq<i64> {
        self.stack@
    }

    /// The keys yielded so far, in yield order.
    pub closed spec fn spec_visited(self) -> Seq<i64> {
        self.visited@
    }

    /// No key is ever yielded twice.
    pub open spec fn inv(self) -> bool {
        self.spec_visited().no_duplicates()
    }

    /// One step of the walk. Yields exclusive access to a vertex whose key
    /// was never yielded before; or nothing, once the frontier is exhausted.
    /// The final graph differs from the graph as handed in only at the slot
    /// of the yielded vertex, which holds whatever the caller leaves there.
    /// Over the graph as handed in, the step follows `dfs_step` exactly,
    /// which pins the yield order: deepest pending key first.
    pub fn next<'a, Value, Type: GraphType>(&mut self, graph: &'a mut Graph<Value, Type>) -> (r:
        Option<&'a mut Vertex<Value>>)
        requires
            old(graph).wf(),
            old(self).inv(),
        ensures
            final(self).inv(),
            match r {
                Some(v) => {
                    &&& old(graph).spec_contains((*v).spec_key())
                    &&& *v == old(graph).spec_vertex((*v).spec_key())
                    &&& !old(self).spec_visited().contains((*v).spec_key())
                    &&& final(self).spec_visited() == old(self).spec_visited().push(
                        (*v).spec_key(),
                    )
                    &&& final(graph).spec_vertices() == old(graph).spec_vertices().update(
                        old(graph).spec_index_of((*v).spec_key()),
                        *final(v),
                    )
                },
                None => {
                    &&& *final(graph) == *old(graph)
                    &&& final(self).spec_visited() == old(self).spec_visited()
                    &&& final(self).spec_stack().len() == 0
                },
            },
            ({
                let (k0, st) = dfs_step(
                    *old(graph),
                    old(self).spec_stack(),
                    old(self).spec_visited(),
                );
                &&& (match r {
                    Some(v) => k0 == Some((*v).spec_key()),
                    None => k0 is None,
                })
                &&& final(self).spec_stack() == st
            }),
    {
        loop
            invariant
                old(graph).wf(),
                *graph == *old(graph),
                self.inv(),
                self.spec_visited() == old(self).spec_visited(),
                dfs_step(*old(graph), old(self).spec_stack(), old(self).spec_visited())
                    == dfs_step(*old(graph), self.spec_stack(), self.spec_visited()),
            decreases self.spec_stack().len(),
        {
            let ghost pre = *self;
            if self.stack.len() == 0 {
                return None;
            }
            let k = self.stack.pop().unwrap();
            proof {
                assert(k == pre.spec_stack().last());
                assert(self.spec_stack() == pre.spec_stack().drop_last());
            }
            if seen(&self.visited, k) {
                proof {
                    assert(dfs_step(*old(graph), pre.spec_stack(), pre.spec_visited())
                        == dfs_step(*old(graph), self.spec_stack(), self.spec_visited()));
                }
                continue ;
            }
            if graph.contains(k) {
                let ghost popped = *self;
                self.visited.push(k);
                proof {
                    assert(self.spec_visited() == popped.spec_visited().push(k));
                    assert(self.spec_visited()[self.spec_visited().len() - 1] == k);
                    assert(self.spec_visited().no_duplicates());
                }
                let ghost marked = *self;
                // Capture the unvisited neighbour keys before yielding.
                let v_read = graph.get_vertex(k).unwrap();
                let adj = v_read.adjancency_list();
                let m = adj.len();
                let mut i: usize = 0;
                proof {
                    assert(adj@.take(0) =~= Seq::<crate::edge::Edge>::empty());
                    assert(unvisited_targets(adj@.take(0), marked.spec_visited())
                        =~= Seq::<i64>::empty());
                    assert(self.spec_stack() =~= popped.spec_stack() + unvisited_targets(
                        adj@.take(0),
                        marked.spec_visited(),
                    ));
                }
                while i < m
                    invariant
                        adj@ == old(graph).spec_vertex(k).spec_adj(),
                        m == adj@.len(),
                        0 <= i <= m,
                        self.spec_stack() == popped.spec_stack() + unvisited_targets(
                            adj@.take(i as int),
                            marked.spec_visited(),
                        ),
                        self.spec_visited() == marked.spec_visited(),
                        self.spec_visited() == popped.spec_visited().push(k),
                        self.inv(),
                    decreases m - i,
                {
                    let t = adj[i].to();
                    proof {
                        lemma_unvisited_targets_step(adj@, marked.spec_visited(), i as int);
                    }
                    if !seen(&self.visited, t) {
                        let ghost before = *self;
                        self.stack.push(t);
                        proof {
                            assert(self.spec_stack() =~= popped.spec_stack() + unvisited_targets(
                                adj@.take(i as int + 1),
                                marked.spec_visited(),
                            ));
                        }
                    }
                    i += 1;
                }
                proof {
                    assert(adj@.take(m as int) =~= adj@);
                    assert(marked.spec_visited() == pre.spec_visited().push(k));
                    assert(self.spec_stack() == popped.spec_stack() + frontier_additions(
                        *old(graph),
                        k,
                        pre.spec_visited().push(k),
                    ));
                    assert(!pre.spec_visited().contains(k));
                    assert(dfs_step(*old(graph), pre.spec_stack(), pre.spec_visited()) == (
                    Some(k), self.spec_stack()));
                }
                let vm = graph.get_vertex_mut(k).unwrap();
                return Some(vm);
            }
            proof {
                assert(!old(graph).spec_contains(k));
                assert(dfs_step(*old(graph), pre.spec_stack(), pre.spec_visited()) == dfs_step(
                    *old(graph),
                    self.spec_stack(),
                    self.spec_visited(),
                ));
            }
        }
    }
}

impl<Value, Type: GraphType> Graph<Value, Type> {
    /// The mutating form of `dfs`: the returned walk hands out exclusive
    /// access to each vertex in turn.
    pub fn dfs_mut(&mut self, from: i64) -> (it: DfsIteratorMut)
        ensures
            it.inv(),
            it.spec_visited() == Seq::<i64>::empty(),
            it.spec_stack() == seq![from],
            *final(self) == *old(self),
    {
        let mut stack = Vec::new();
        stack.push(from);
        let it = DfsIteratorMut { stack, visited: Vec::new() };
        proof {
            assert(it.spec_stack() =~= seq![from]);
            assert(it.spec_visited() =~= Seq::<i64>::empty());
        }
        it
    }
}

} // verus!
