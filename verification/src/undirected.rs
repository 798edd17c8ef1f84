use vstd::prelude::*;

use vstd::pervasive::unreached;

use crate::edge::Edge;
use crate::graph::Graph;
use crate::marker::Undirected;

verus! {

impl<Value> Graph<Value, Undirected> {
    /// Inserts an edge between `from` and `to` into the undirected graph: the
    /// edge is written into both adjacency lists, as `from -> to` and as
    /// `to -> from`, with the same weight. An existing edge between the two is
    /// replaced on both sides and its `from -> to` half returned. The
    /// operation fails when either endpoint vertex is missing, and the graph
    /// is then unchanged.
    ///
    /// A graph in which only one half of a mirrored pair exists is in breach
    /// of the pairing invariant; inserting over such a pair would be a fatal
    /// internal fault, so the precondition rules that state out.
    pub fn insert_edge(&mut self, from: i64, to: i64, weight: i64) -> (r: Result<
        Option<Edge>,
        &'static str,
    >)
        requires
            old(self).wf(),
            old(self).spec_contains(from) && old(self).spec_contains(to) ==> (if from == to {
                old(self).spec_has_edge(from, from)
            } else {
                old(self).spec_has_edge(from, to) <==> old(self).spec_has_edge(to, from)
            }),
        ensures
            final(self).wf(),
            old(self).edge_sym() ==> final(self).edge_sym(),
            r is Err <==> !(old(self).spec_contains(from) && old(self).spec_contains(to)),
            r matches Err(m) ==> m@ == "failure"@ && *final(self) == *old(self),
            r matches Ok(prev) ==> {
                &&& prev == old(self).spec_get_edge(from, to)
                &&& final(self).spec_get_edge(from, to) == Some(Edge { from, to, weight })
                &&& final(self).spec_get_edge(to, from) == Some(Edge { from: to, to: from, weight })
                &&& forall|a: i64, b: i64|
                    !(a == from && b == to) && !(a == to && b == from)
                        ==> #[trigger] final(self).spec_get_edge(a, b) == old(self).spec_get_edge(
                        a,
                        b,
                    )
                &&& forall|t: i64|
                    #[trigger] final(self).spec_contains(t) == old(self).spec_contains(t)
                &&& final(self).spec_vertices().len() == old(self).spec_vertices().len()
                &&& forall|i: int|
                    0 <= i < final(self).spec_vertices().len()
                        ==> (#[trigger] final(self).spec_vertices()[i]).spec_key() == old(
                        self,
                    ).spec_vertices()[i].spec_key() && final(self).spec_vertices()[i].spec_value()
                        == old(self).spec_vertices()[i].spec_value()
                &&& from != to ==> final(self).spec_vertex(from).spec_adj() == old(
                    self,
                ).spec_vertex(from).spec_insert_adj(to, weight)
                &&& from != to ==> final(self).spec_vertex(to).spec_adj() == old(self).spec_vertex(
                    to,
                ).spec_insert_adj(from, weight)
                &&& forall|t: i64|
                    t != from && t != to && old(self).spec_contains(t)
                        ==> #[trigger] final(self).spec_vertex(t) == old(self).spec_vertex(t)
            },
    {
        let ghost pre = *self;
        if !self.contains(from) || !self.contains(to) {
            return Err("failure");
        }
        let v1 = self.get_vertex_mut(from).unwrap();
        let removed_1 = v1.insert_edge(to, weight);
        proof {
            let g1 = *self;
            let i = pre.spec_index_of(from);
            Self::lemma_update_vertex(pre, g1, g1.spec_vertices()[i]);
        }
        let ghost g1 = *self;
        let v2 = self.get_vertex_mut(to).unwrap();
        let removed_2 = v2.insert_edge(from, weight);
        proof {
            let post = *self;
            let j = g1.spec_index_of(to);
            Self::lemma_update_vertex(g1, post, post.spec_vertices()[j]);
            // Relate the two intermediate results to the initial graph.
            assert(removed_1 == pre.spec_get_edge(from, to));
            if from != to {
                assert(g1.spec_vertex(to) == pre.spec_vertex(to));
                assert(removed_2 == pre.spec_get_edge(to, from));
                assert(post.spec_vertex(from) == g1.spec_vertex(from));
            } else {
                assert(g1.spec_vertex(to).spec_has_edge(from));
                assert(removed_2 is Some);
            }
            // The untouched directions keep their edges.
            assert forall|a: i64, b: i64| !(a == from && b == to) && !(a == to && b == from)
                implies #[trigger] post.spec_get_edge(a, b) == pre.spec_get_edge(a, b) by {
                if a == from && a == to {
                } else if a == from {
                    assert(post.spec_vertex(a).spec_get_edge(b) == g1.spec_vertex(a).spec_get_edge(
                        b,
                    ));
                    assert(g1.spec_vertex(a).spec_get_edge(b) == pre.spec_vertex(a).spec_get_edge(
                        b,
                    ));
                } else if a == to {
                    assert(g1.spec_vertex(a) == pre.spec_vertex(a));
                    assert(post.spec_vertex(a).spec_get_edge(b) == g1.spec_vertex(a).spec_get_edge(
                        b,
                    ));
                }
            }
            // Both new halves are in place.
            assert(post.spec_get_edge(to, from) == Some(Edge { from: to, to: from, weight }));
            if from != to {
                assert(post.spec_vertex(from).spec_get_edge(to) == g1.spec_vertex(
                    from,
                ).spec_get_edge(to));
                assert(post.spec_get_edge(from, to) == Some(Edge { from, to, weight }));
            }
            // The pairing invariant survives.
            if pre.edge_sym() {
                assert forall|a: i64, b: i64| #[trigger] post.spec_has_edge(a, b) implies post
                    .spec_has_edge(b, a) && post.spec_edge_weight(a, b) == post.spec_edge_weight(
                    b,
                    a,
                ) by {
                    if a == from && b == to {
                    } else if a == to && b == from {
                    } else {
                        assert(post.spec_get_edge(a, b) == pre.spec_get_edge(a, b));
                        assert(pre.spec_has_edge(a, b));
                        assert(pre.spec_has_edge(b, a));
                        assert(!(b == from && a == to) && !(b == to && a == from));
                        assert(post.spec_get_edge(b, a) == pre.spec_get_edge(b, a));
                    }
                }
            }
        }
        if removed_1.is_none() && removed_2.is_none() {
            Ok(None)
        } else if removed_1.is_some() && removed_2.is_some() {
            Ok(removed_1)
        } else {
            proof {
                if from != to {
                    assert(pre.spec_has_edge(from, to) <==> pre.spec_has_edge(to, from));
                }
                assert(false);
            }
            unreached()
        }
    }

    /// Same as `insert_edge`, with weight zero.
    pub fn insert_edge_unweighted(&mut self, from: i64, to: i64) -> (r: Result<
        Option<Edge>,
        &'static str,
    >)
        requires
            old(self).wf(),
            old(self).spec_contains(from) && old(self).spec_contains(to) ==> (if from == to {
                old(self).spec_has_edge(from, from)
            } else {
                old(self).spec_has_edge(from, to) <==> old(self).spec_has_edge(to, from)
            }),
        ensures
            final(self).wf(),
            old(self).edge_sym() ==> final(self).edge_sym(),
            r is Err <==> !(old(self).spec_contains(from) && old(self).spec_contains(to)),
            r matches Err(m) ==> m@ == "failure"@ && *final(self) == *old(self),
            r matches Ok(prev) ==> {
                &&& prev == old(self).spec_get_edge(from, to)
                &&& final(self).spec_get_edge(from, to) == Some(Edge { from, to, weight: 0 })
                &&& final(self).spec_get_edge(to, from) == Some(
                    Edge { from: to, to: from, weight: 0 },
                )
                &&& forall|a: i64, b: i64|
                    !(a == from && b == to) && !(a == to && b == from)
                        ==> #[trigger] final(self).spec_get_edge(a, b) == old(self).spec_get_edge(
                        a,
                        b,
                    )
                &&& forall|t: i64|
                    #[trigger] final(self).spec_contains(t) == old(self).spec_contains(t)
                &&& final(self).spec_vertices().len() == old(self).spec_vertices().len()
                &&& forall|i: int|
                    0 <= i < final(self).spec_vertices().len()
                        ==> (#[trigger] final(self).spec_vertices()[i]).spec_key() == old(
                        self,
                    ).spec_vertices()[i].spec_key() && final(self).spec_vertices()[i].spec_value()
                        == old(self).spec_vertices()[i].spec_value()
                &&& from != to ==> final(self).spec_vertex(from).spec_adj() == old(
                    self,
                ).spec_vertex(from).spec_insert_adj(to, 0)
                &&& from != to ==> final(self).spec_vertex(to).spec_adj() == old(self).spec_vertex(
                    to,
                ).spec_insert_adj(from, 0)
                &&& forall|t: i64|
                    t != from && t != to && old(self).spec_contains(t)
                        ==> #[trigger] final(self).spec_vertex(t) == old(self).spec_vertex(t)
            },
    {
        self.insert_edge(from, to, 0)
    }

    /// Removes the edge between `from` and `to` from the undirected graph, on
    /// both sides, returning the removed `from -> to` half if it existed. The
    /// operation fails when either endpoint vertex is missing, and the graph
    /// is then unchanged.
    pub fn remove_edge(&mut self, from: i64, to: i64) -> (r: Result<Option<Edge>, &'static str>)
        requires
            old(self).wf(),
        ensures
            final(self).wf(),
            old(self).edge_sym() ==> final(self).edge_sym(),
            r is Err <==> !(old(self).spec_contains(from) && old(self).spec_contains(to)),
            r matches Err(m) ==> m@ == "failure"@ && *final(self) == *old(self),
            r matches Ok(prev) ==> {
                &&& from != to ==> prev == old(self).spec_get_edge(from, to)
                &&& from == to ==> prev is None
                &&& !final(self).spec_has_edge(from, to)
                &&& !final(self).spec_has_edge(to, from)
                &&& forall|a: i64, b: i64|
                    !(a == from && b == to) && !(a == to && b == from)
                        ==> #[trigger] final(self).spec_get_edge(a, b) == old(self).spec_get_edge(
                        a,
                        b,
                    )
                &&& forall|t: i64|
                    #[trigger] final(self).spec_contains(t) == old(self).spec_contains(t)
                &&& final(self).spec_vertices().len() == old(self).spec_vertices().len()
                &&& forall|i: int|
                    0 <= i < final(self).spec_vertices().len()
                        ==> (#[trigger] final(self).spec_vertices()[i]).spec_key() == old(
                        self,
                    ).spec_vertices()[i].spec_key() && final(self).spec_vertices()[i].spec_value()
                        == old(self).spec_vertices()[i].spec_value()
                &&& final(self).spec_vertex(from).spec_adj() == old(self).spec_vertex(
                    from,
                ).spec_remove_adj(to)
                &&& from != to ==> final(self).spec_vertex(to).spec_adj() == old(self).spec_vertex(
                    to,
                ).spec_remove_adj(from)
                &&& forall|t: i64|
                    t != from && t != to && old(self).spec_contains(t)
                        ==> #[trigger] final(self).spec_vertex(t) == old(self).spec_vertex(t)
            },
    {
        let ghost pre = *self;
        if !self.contains(from) || !self.contains(to) {
            return Err("failure");
        }
        let v2 = self.get_vertex_mut(to).unwrap();
        let _ = v2.remove_edge(from);
        proof {
            let g1 = *self;
            let j = pre.spec_index_of(to);
            Self::lemma_update_vertex(pre, g1, g1.spec_vertices()[j]);
        }
        let ghost g1 = *self;
        let v1 = self.get_vertex_mut(from).unwrap();
        let removed = v1.remove_edge(to);
        proof {
            let post = *self;
            let i = g1.spec_index_of(from);
            Self::lemma_update_vertex(g1, post, post.spec_vertices()[i]);
            if from != to {
                assert(g1.spec_vertex(from) == pre.spec_vertex(from));
                assert(removed == pre.spec_get_edge(from, to));
                assert(post.spec_vertex(to) == g1.spec_vertex(to));
            } else {
                assert(!g1.spec_vertex(from).spec_has_edge(to));
                assert(removed is None);
                assert(g1.spec_vertex(from).spec_adj() == pre.spec_vertex(from).spec_remove_adj(
                    from,
                ));
                assert(post.spec_vertex(from).spec_adj() == g1.spec_vertex(from).spec_adj());
            }
            assert(!post.spec_has_edge(from, to));
            assert(!post.spec_has_edge(to, from));
            assert forall|a: i64, b: i64| !(a == from && b == to) && !(a == to && b == from)
                implies #[trigger] post.spec_get_edge(a, b) == pre.spec_get_edge(a, b) by {
                if a == from && a == to {
                } else if a == from {
                    assert(post.spec_vertex(a).spec_get_edge(b) == g1.spec_vertex(a).spec_get_edge(
                        b,
                    ));
                    assert(g1.spec_vertex(a) == pre.spec_vertex(a));
                } else if a == to {
                    assert(post.spec_vertex(a) == g1.spec_vertex(a));
                    assert(g1.spec_vertex(a).spec_get_edge(b) == pre.spec_vertex(a).spec_get_edge(
                        b,
                    ));
                }
            }
            if pre.edge_sym() {
                assert forall|a: i64, b: i64| #[trigger] post.spec_has_edge(a, b) implies post
                    .spec_has_edge(b, a) && post.spec_edge_weight(a, b) == post.spec_edge_weight(
                    b,
                    a,
                ) by {
                    assert(!(a == from && b == to) && !(a == to && b == from));
                    assert(post.spec_get_edge(a, b) == pre.spec_get_edge(a, b));
                    assert(pre.spec_has_edge(a, b));
                    assert(pre.spec_has_edge(b, a));
                    assert(!(b == from && a == to) && !(b == to && a == from));
                    assert(post.spec_get_edge(b, a) == pre.spec_get_edge(b, a));
                }
            }
        }
        Ok(removed)
    }
}

} // verus!
