use vstd::prelude::*;

use crate::edge::Edge;
use crate::graph::Graph;
use crate::marker::Directed;

verus! {

impl<Value> Graph<Value, Directed> {
    /// Inserts an edge `from -> to` into the directed graph, in that one
    /// direction only. An edge with the same endpoints is replaced and
    /// returned; the operation fails when either endpoint vertex is missing,
    /// and the graph is then unchanged.
    pub fn insert_edge(&mut self, from: i64, to: i64, weight: i64) -> (r: Result<
        Option<Edge>,
        &'static str,
    >)
        requires
            old(self).wf(),
        ensures
            final(self).wf(),
            r is Err <==> !(old(self).spec_contains(from) && old(self).spec_contains(to)),
            r matches Err(m) ==> m@ == "failure"@ && *final(self) == *old(self),
            r matches Ok(prev) ==> {
                &&& prev == old(self).spec_get_edge(from, to)
                &&& final(self).spec_get_edge(from, to) == Some(Edge { from, to, weight })
                &&& forall|a: i64, b: i64|
                    !(a == from && b == to) ==> #[trigger] final(self).spec_get_edge(a, b) == old(
                        self,
                    ).spec_get_edge(a, b)
                &&& forall|t: i64|
                    #[trigger] final(self).spec_contains(t) == old(self).spec_contains(t)
                &&& final(self).spec_vertices().len() == old(self).spec_vertices().len()
                &&& final(self).spec_vertex(from).spec_key() == from
                &&& final(self).spec_vertex(from).spec_value() == old(self).spec_vertex(
                    from,
                ).spec_value()
                &&& final(self).spec_vertex(from).spec_adj() == old(self).spec_vertex(
                    from,
                ).spec_insert_adj(to, weight)
                &&& forall|t: i64|
                    t != from && old(self).spec_contains(t) ==> #[trigger] final(self).spec_vertex(t)
                        == old(self).spec_vertex(t)
                &&& forall|i: int|
                    0 <= i < final(self).spec_vertices().len() ==> (#[trigger] final(self).spec_vertices()[i]).spec_key() == old(self).spec_vertices()[i].spec_key()
                &&& final(self).spec_index_of(from) == old(self).spec_index_of(from)
                &&& forall|i: int|
                    0 <= i < final(self).spec_vertices().len() && i != old(self).spec_index_of(from)
                        ==> #[trigger] final(self).spec_vertices()[i] == old(self).spec_vertices()[i]
            },
    {
        let ghost pre = *self;
        if !self.contains(from) || !self.contains(to) {
            return Err("failure");
        }
        let v = self.get_vertex_mut(from).unwrap();
        let removed = v.insert_edge(to, weight);
        proof {
            let post = *self;
            let i = pre.spec_index_of(from);
            let v2 = post.spec_vertices()[i];
            Self::lemma_update_vertex(pre, post, v2);
            assert(post.spec_vertex(from) == v2);
            assert(v2.spec_key() == from);
            assert(post.spec_index_of(from) == pre.spec_index_of(from));
            assert forall|q: int|
                0 <= q < post.spec_vertices().len() && q != pre.spec_index_of(from) implies
            #[trigger] post.spec_vertices()[q] == pre.spec_vertices()[q] by {}
            assert forall|a: i64, b: i64| !(a == from && b == to) implies #[trigger] post
                .spec_get_edge(a, b) == pre.spec_get_edge(a, b) by {
                if a == from {
                    assert(v2.spec_get_edge(b) == pre.spec_vertex(from).spec_get_edge(b));
                }
            }
            assert forall|j: int| 0 <= j < post.spec_vertices().len() implies (
            #[trigger] post.spec_vertices()[j]).spec_key() == pre.spec_vertices()[j].spec_key()
            by {}
        }
        Ok(removed)
    }

    /// Same as `insert_edge`, with weight zero.
    pub fn insert_edge_unweighted(&mut self, from: i64, to: i64) -> (r: Result<
        Option<Edge>,
        &'static str,
    >)
        requires
            old(self).wf(),
        ensures
            final(self).wf(),
            r is Err <==> !(old(self).spec_contains(from) && old(self).spec_contains(to)),
            r matches Err(m) ==> m@ == "failure"@ && *final(self) == *old(self),
            r matches Ok(prev) ==> {
                &&& prev == old(self).spec_get_edge(from, to)
                &&& final(self).spec_get_edge(from, to) == Some(Edge { from, to, weight: 0 })
                &&& forall|a: i64, b: i64|
                    !(a == from && b == to) ==> #[trigger] final(self).spec_get_edge(a, b) == old(
                        self,
                    ).spec_get_edge(a, b)
                &&& forall|t: i64|
                    #[trigger] final(self).spec_contains(t) == old(self).spec_contains(t)
                &&& final(self).spec_vertices().len() == old(self).spec_vertices().len()
                &&& final(self).spec_vertex(from).spec_key() == from
                &&& final(self).spec_vertex(from).spec_value() == old(self).spec_vertex(
                    from,
                ).spec_value()
                &&& final(self).spec_vertex(from).spec_adj() == old(self).spec_vertex(
                    from,
                ).spec_insert_adj(to, 0)
                &&& forall|t: i64|
                    t != from && old(self).spec_contains(t) ==> #[trigger] final(self).spec_vertex(t)
                        == old(self).spec_vertex(t)
                &&& forall|i: int|
                    0 <= i < final(self).spec_vertices().len() ==> (#[trigger] final(self).spec_vertices()[i]).spec_key() == old(self).spec_vertices()[i].spec_key()
                &&& final(self).spec_index_of(from) == old(self).spec_index_of(from)
                &&& forall|i: int|
                    0 <= i < final(self).spec_vertices().len() && i != old(self).spec_index_of(from)
                        ==> #[trigger] final(self).spec_vertices()[i] == old(self).spec_vertices()[i]
            },
    {
        self.insert_edge(from, to, 0)
    }

    /// Removes the edge `from -> to` from the directed graph, in that one
    /// direction only, returning it if it existed. The operation fails when
    /// either endpoint vertex is missing, and the graph is then unchanged.
    pub fn remove_edge(&mut self, from: i64, to: i64) -> (r: Result<Option<Edge>, &'static str>)
        requires
            old(self).wf(),
        ensures
            final(self).wf(),
            r is Err <==> !(old(self).spec_contains(from) && old(self).spec_contains(to)),
            r matches Err(m) ==> m@ == "failure"@ && *final(self) == *old(self),
            r matches Ok(prev) ==> {
                &&& prev == old(self).spec_get_edge(from, to)
                &&& final(self).spec_get_edge(from, to) is None
                &&& forall|a: i64, b: i64|
                    !(a == from && b == to) ==> #[trigger] final(self).spec_get_edge(a, b) == old(
                        self,
                    ).spec_get_edge(a, b)
                &&& forall|t: i64|
                    #[trigger] final(self).spec_contains(t) == old(self).spec_contains(t)
                &&& final(self).spec_vertices().len() == old(self).spec_vertices().len()
                &&& final(self).spec_vertex(from).spec_key() == from
                &&& final(self).spec_vertex(from).spec_value() == old(self).spec_vertex(
                    from,
                ).spec_value()
                &&& final(self).spec_vertex(from).spec_adj() == old(self).spec_vertex(
                    from,
                ).spec_remove_adj(to)
                &&& forall|t: i64|
                    t != from && old(self).spec_contains(t) ==> #[trigger] final(self).spec_vertex(t)
                        == old(self).spec_vertex(t)
                &&& forall|i: int|
                    0 <= i < final(self).spec_vertices().len() ==> (#[trigger] final(self).spec_vertices()[i]).spec_key() == old(self).spec_vertices()[i].spec_key()
                &&& final(self).spec_index_of(from) == old(self).spec_index_of(from)
                &&& forall|i: int|
                    0 <= i < final(self).spec_vertices().len() && i != old(self).spec_index_of(from)
                        ==> #[trigger] final(self).spec_vertices()[i] == old(self).spec_vertices()[i]
            },
    {
        let ghost pre = *self;
        if !self.contains(from) || !self.contains(to) {
            return Err("failure");
        }
        let v = self.get_vertex_mut(from).unwrap();
        let removed = v.remove_edge(to);
        proof {
            let post = *self;
            let i = pre.spec_index_of(from);
            let v2 = post.spec_vertices()[i];
            Self::lemma_update_vertex(pre, post, v2);
            assert(post.spec_vertex(from) == v2);
            assert(v2.spec_key() == from);
            assert(post.spec_index_of(from) == pre.spec_index_of(from));
            assert forall|q: int|
                0 <= q < post.spec_vertices().len() && q != pre.spec_index_of(from) implies
            #[trigger] post.spec_vertices()[q] == pre.spec_vertices()[q] by {}
            assert forall|a: i64, b: i64| !(a == from && b == to) implies #[trigger] post
                .spec_get_edge(a, b) == pre.spec_get_edge(a, b) by {
                if a == from {
                    assert(v2.spec_get_edge(b) == pre.spec_vertex(from).spec_get_edge(b));
                }
            }
            assert forall|j: int| 0 <= j < post.spec_vertices().len() implies (
            #[trigger] post.spec_vertices()[j]).spec_key() == pre.spec_vertices()[j].spec_key()
            by {}
        }
        Ok(removed)
    }
}

} // verus!
