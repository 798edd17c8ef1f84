use vstd::prelude::*;

use crate::edge::Edge;

verus! {

/// A node of a graph: a key identifying it, a value, and the list of its
/// outgoing edges (its adjacency list).
///
/// Well-formedness (`wf`) asks that every edge of the list leaves this vertex
/// and that no two edges share a destination, so the list holds at most one
/// edge per ordered `(from, to)` pair.
pub struct Vertex<Value> {
    key: i64,
    pub value: Value,
    adj: Vec<Edge>,
}

/// A sequence with the element at `i` taken out, the last element moving into
/// its slot: the effect of `Vec::swap_remove`.
pub open spec fn swap_removed(s: Seq<Edge>, i: int) -> Seq<Edge> {
    s.update(i, s.last()).drop_last()
}

/// Pointwise description of `swap_removed`: every surviving slot holds either
/// the edge it held before or, at `i`, the former last edge.
pub proof fn lemma_swap_removed(s: Seq<Edge>, i: int)
    requires
        0 <= i < s.len(),
    ensures
        swap_removed(s, i).len() == s.len() - 1,
        forall|j: int|
            0 <= j < s.len() - 1 ==> #[trigger] swap_removed(s, i)[j] == (if j == i {
                s[s.len() - 1]
            } else {
                s[j]
            }),
{
}

impl<Value> Vertex<Value> {
    /// The key under which this vertex is stored.
    pub closed spec fn spec_key(self) -> i64 {
        self.key
    }

    /// The value carried by this vertex.
    pub closed spec fn spec_value(self) -> Value {
        self.value
    }

    /// The adjacency list, as a sequence of edges.
    pub closed spec fn spec_adj(self) -> Seq<Edge> {
        self.adj@
    }

    /// Every edge leaves this vertex, and destinations are pairwise distinct.
    pub open spec fn wf(self) -> bool {
        &&& forall|i: int|
            0 <= i < self.spec_adj().len() ==> (#[trigger] self.spec_adj()[i]).from
                == self.spec_key()
        &&& forall|i: int, j: int|
            0 <= i < self.spec_adj().len() && 0 <= j < self.spec_adj().len() && i != j ==> (
            #[trigger] self.spec_adj()[i]).to != (#[trigger] self.spec_adj()[j]).to
    }

    /// Whether some edge of this vertex targets `to`.
    pub open spec fn spec_has_edge(self, to: i64) -> bool {
        exists|i: int| 0 <= i < self.spec_adj().len() && (#[trigger] self.spec_adj()[i]).to == to
    }

    /// The index of an edge targeting `to`; unique when the vertex is well formed.
    pub open spec fn spec_edge_index(self, to: i64) -> int {
        choose|i: int| 0 <= i < self.spec_adj().len() && (#[trigger] self.spec_adj()[i]).to == to
    }

    /// The edge targeting `to`, if any.
    pub open spec fn spec_get_edge(self, to: i64) -> Option<Edge> {
        if self.spec_has_edge(to) {
            Some(self.spec_adj()[self.spec_edge_index(to)])
        } else {
            None
        }
    }

    pub fn new(key: i64, value: Value) -> (v: Vertex<Value>)
        ensures
            v.spec_key() == key,
            v.spec_value() == value,
            v.spec_adj() == Seq::<Edge>::empty(),
            v.wf(),
    {
        let v = Vertex { key, value, adj: Vec::new() };
        proof {
            assert(v.spec_adj() =~= Seq::<Edge>::empty());
        }
        v
    }

    pub fn key(&self) -> (k: i64)
        ensures
            k == self.spec_key(),
    {
        self.key
    }

    pub fn adjancency_list(&self) -> (r: &Vec<Edge>)
        ensures
            r@ == self.spec_adj(),
    {
        &self.adj
    }

    /// Read access to the value.
    pub fn value(&self) -> (r: &Value)
        ensures
            *r == self.spec_value(),
    {
        &self.value
    }

    /// Gives up the vertex and hands its value out.
    pub fn into_value(self) -> (r: Value)
        ensures
            r == self.spec_value(),
    {
        self.value
    }

    /// This vertex with its value replaced; key and adjacency list unchanged.
    pub closed spec fn spec_with_value(self, value: Value) -> Vertex<Value> {
        Vertex { key: self.key, value, adj: self.adj }
    }

    /// What `spec_with_value` leaves as it is and what it replaces.
    pub proof fn lemma_with_value(self, value: Value)
        ensures
            self.spec_with_value(value).spec_key() == self.spec_key(),
            self.spec_with_value(value).spec_value() == value,
            self.spec_with_value(value).spec_adj() == self.spec_adj(),
            self.wf() ==> self.spec_with_value(value).wf(),
    {
    }

    /// Exclusive access to the value; the key and the adjacency list stay as
    /// they are.
    pub fn value_mut(&mut self) -> (r: &mut Value)
        ensures
            *r == old(self).spec_value(),
            *final(self) == old(self).spec_with_value(*final(r)),
            final(self).spec_key() == old(self).spec_key(),
            final(self).spec_adj() == old(self).spec_adj(),
            final(self).spec_value() == *final(r),
    {
        &mut self.value
    }

    /// Position of the edge targeting `to` in the adjacency list, if any.
    fn find_edge_index(&self, to: i64) -> (r: Option<usize>)
        requires
            self.wf(),
        ensures
            match r {
                Some(i) => self.spec_has_edge(to) && i == self.spec_edge_index(to) && 0 <= i
                    < self.spec_adj().len() && self.spec_adj()[i as int].to == to,
                None => !self.spec_has_edge(to),
            },
    {
        let n = self.adj.len();
        let mut i: usize = 0;
        while i < n
            invariant
                self.wf(),
                n == self.spec_adj().len(),
                0 <= i <= n,
                forall|j: int| 0 <= j < i ==> (#[trigger] self.spec_adj()[j]).to != to,
            decreases n - i,
        {
            if self.adj[i].to == to {
                proof {
                    assert(self.spec_adj()[i as int].to == to);
                    assert(self.spec_has_edge(to));
                    let k = self.spec_edge_index(to);
                    assert(0 <= k < self.spec_adj().len() && self.spec_adj()[k].to == to);
                    assert(k == i);
                }
                return Some(i);
            }
            proof {
                assert(self.spec_adj()[i as int].to != to);
            }
            i += 1;
        }
        proof {
            if self.spec_has_edge(to) {
                let k = self.spec_edge_index(to);
                assert(0 <= k < self.spec_adj().len() && self.spec_adj()[k].to == to);
            }
        }
        None
    }

    /// The adjacency list after inserting an edge to `to`: the old edge with
    /// that destination, if any, is taken out (the last edge moving into its
    /// slot), and the new edge is appended.
    pub open spec fn spec_insert_adj(self, to: i64, weight: i64) -> Seq<Edge> {
        let e = Edge { from: self.spec_key(), to, weight };
        if self.spec_has_edge(to) {
            swap_removed(self.spec_adj(), self.spec_edge_index(to)).push(e)
        } else {
            self.spec_adj().push(e)
        }
    }

    /// The adjacency list after removing the edge to `to`, if present: the
    /// last edge moves into its slot.
    pub open spec fn spec_remove_adj(self, to: i64) -> Seq<Edge> {
        if self.spec_has_edge(to) {
            swap_removed(self.spec_adj(), self.spec_edge_index(to))
        } else {
            self.spec_adj()
        }
    }

    /// After taking out the edge at the (unique) index targeting `to`, no
    /// remaining edge targets `to`, sources are unchanged, destinations stay
    /// pairwise distinct, and every other destination keeps its edge.
    proof fn lemma_swap_remove_edge(self, to: i64)
        requires
            self.wf(),
            self.spec_has_edge(to),
        ensures
            ({
                let s = swap_removed(self.spec_adj(), self.spec_edge_index(to));
                &&& s.len() == self.spec_adj().len() - 1
                &&& forall|j: int| 0 <= j < s.len() ==> (#[trigger] s[j]).from == self.spec_key()
                &&& forall|j: int| 0 <= j < s.len() ==> (#[trigger] s[j]).to != to
                &&& forall|a: int, b: int|
                    0 <= a < s.len() && 0 <= b < s.len() && a != b ==> (#[trigger] s[a]).to != (
                    #[trigger] s[b]).to
                &&& forall|t: i64|
                    t != to && self.spec_has_edge(t) ==> exists|j: int|
                        0 <= j < s.len() && (#[trigger] s[j]) == self.spec_adj()[
                        self.spec_edge_index(t)]
            }),
    {
        let i = self.spec_edge_index(to);
        assert(0 <= i < self.spec_adj().len() && self.spec_adj()[i].to == to);
        lemma_swap_removed(self.spec_adj(), i);
        let s = swap_removed(self.spec_adj(), i);
        let n = self.spec_adj().len() as int;
        assert forall|j: int| 0 <= j < s.len() implies (#[trigger] s[j]).to != to by {
            if j == i {
                assert(s[j] == self.spec_adj()[n - 1]);
                if i != n - 1 {
                    assert(self.spec_adj()[n - 1].to != self.spec_adj()[i].to);
                }
            } else {
                assert(s[j] == self.spec_adj()[j]);
                assert(self.spec_adj()[j].to != self.spec_adj()[i].to);
            }
        }
        assert forall|a: int, b: int|
            0 <= a < s.len() && 0 <= b < s.len() && a != b implies (#[trigger] s[a]).to != (
        #[trigger] s[b]).to by {
            let a2: int = if a == i {
                n - 1
            } else {
                a
            };
            let b2: int = if b == i {
                n - 1
            } else {
                b
            };
            assert(s[a] == self.spec_adj()[a2]);
            assert(s[b] == self.spec_adj()[b2]);
            assert(self.spec_adj()[a2].to != self.spec_adj()[b2].to);
        }
        assert forall|t: i64| t != to && self.spec_has_edge(t) implies exists|j: int|
            0 <= j < s.len() && (#[trigger] s[j]) == self.spec_adj()[self.spec_edge_index(t)] by {
            let k = self.spec_edge_index(t);
            assert(0 <= k < n && self.spec_adj()[k].to == t);
            assert(k != i);
            if k == n - 1 {
                // The last edge moved into slot `i`; in particular i < n - 1 here.
                assert(i < n - 1);
                assert(s[i] == self.spec_adj()[k]);
            } else {
                assert(s[k] == self.spec_adj()[k]);
            }
        }
    }

    /// Inserts an edge from this vertex to `to`. An edge with the same
    /// destination is replaced — its former value is returned — so the list
    /// keeps one edge per destination.
    pub fn insert_edge(&mut self, to: i64, weight: i64) -> (r: Option<Edge>)
        requires
            old(self).wf(),
        ensures
            final(self).wf(),
            final(self).spec_key() == old(self).spec_key(),
            final(self).spec_value() == old(self).spec_value(),
            r == old(self).spec_get_edge(to),
            final(self).spec_adj() == old(self).spec_insert_adj(to, weight),
            final(self).spec_get_edge(to) == Some(
                Edge { from: old(self).spec_key(), to, weight },
            ),
            forall|t: i64|
                #[trigger] final(self).spec_has_edge(t) <==> (old(self).spec_has_edge(t) || t
                    == to),
            forall|t: i64|
                t != to ==> #[trigger] final(self).spec_get_edge(t) == old(self).spec_get_edge(t),
    {
        let ghost pre = *self;
        let new_edge = Edge::new(self.key, to, weight);
        let removed: Option<Edge> = match self.find_edge_index(to) {
            Some(i) => Some(self.adj.swap_remove(i)),
            None => None,
        };
        self.adj.push(new_edge);
        proof {
            let post = *self;
            let e = Edge { from: pre.spec_key(), to, weight };
            assert(new_edge == e);
            if pre.spec_has_edge(to) {
                let i = pre.spec_edge_index(to);
                pre.lemma_swap_remove_edge(to);
                let s = swap_removed(pre.spec_adj(), i);
                assert(post.spec_adj() == s.push(e));
                let m = s.len() as int;
                // Well-formedness of the result.
                assert forall|a: int, b: int|
                    0 <= a < post.spec_adj().len() && 0 <= b < post.spec_adj().len() && a != b
                    implies (#[trigger] post.spec_adj()[a]).to != (
                #[trigger] post.spec_adj()[b]).to by {
                    if a < m && b < m {
                        assert(post.spec_adj()[a] == s[a]);
                        assert(post.spec_adj()[b] == s[b]);
                    } else if a == m {
                        assert(post.spec_adj()[a] == e);
                        assert(post.spec_adj()[b] == s[b]);
                    } else {
                        assert(post.spec_adj()[a] == s[a]);
                        assert(post.spec_adj()[b] == e);
                    }
                }
                assert forall|j: int| 0 <= j < post.spec_adj().len() implies (
                #[trigger] post.spec_adj()[j]).from == post.spec_key() by {
                    if j < m {
                        assert(post.spec_adj()[j] == s[j]);
                    } else {
                        assert(post.spec_adj()[j] == e);
                    }
                }
                // The new edge is the unique edge to `to`.
                assert(post.spec_adj()[m].to == to);
                assert(post.spec_has_edge(to));
                let k = post.spec_edge_index(to);
                assert(0 <= k < post.spec_adj().len() && post.spec_adj()[k].to == to);
                assert(k == m);
                // Other destinations are untouched.
                assert forall|t: i64| #[trigger] post.spec_has_edge(t) <==> (pre.spec_has_edge(t)
                    || t == to) by {
                    if post.spec_has_edge(t) && t != to {
                        let a = post.spec_edge_index(t);
                        assert(0 <= a < post.spec_adj().len() && post.spec_adj()[a].to == t);
                        assert(a != m);
                        assert(post.spec_adj()[a] == s[a]);
                        if a == i {
                            assert(s[a] == pre.spec_adj()[pre.spec_adj().len() - 1]);
                        } else {
                            assert(s[a] == pre.spec_adj()[a]);
                        }
                    }
                    if pre.spec_has_edge(t) && t != to {
                        let j = choose|j: int|
                            0 <= j < m && (#[trigger] s[j]) == pre.spec_adj()[pre.spec_edge_index(
                                t,
                            )];
                        assert(post.spec_adj()[j] == s[j]);
                        assert(post.spec_adj()[j].to == t);
                    }
                }
                assert forall|t: i64| t != to implies #[trigger] post.spec_get_edge(t)
                    == pre.spec_get_edge(t) by {
                    if pre.spec_has_edge(t) {
                        let j = choose|j: int|
                            0 <= j < m && (#[trigger] s[j]) == pre.spec_adj()[pre.spec_edge_index(
                                t,
                            )];
                        assert(post.spec_adj()[j] == pre.spec_adj()[pre.spec_edge_index(t)]);
                        assert(post.spec_adj()[j].to == t);
                        let a = post.spec_edge_index(t);
                        assert(0 <= a < post.spec_adj().len() && post.spec_adj()[a].to == t);
                        assert(a == j);
                    }
                }
            } else {
                assert(post.spec_adj() == pre.spec_adj().push(e));
                let m = pre.spec_adj().len() as int;
                assert forall|a: int, b: int|
                    0 <= a < post.spec_adj().len() && 0 <= b < post.spec_adj().len() && a != b
                    implies (#[trigger] post.spec_adj()[a]).to != (
                #[trigger] post.spec_adj()[b]).to by {
                    if a < m && b < m {
                        assert(post.spec_adj()[a] == pre.spec_adj()[a]);
                        assert(post.spec_adj()[b] == pre.spec_adj()[b]);
                    } else if a == m {
                        assert(post.spec_adj()[b] == pre.spec_adj()[b]);
                        assert(pre.spec_adj()[b].to != to);
                    } else {
                        assert(post.spec_adj()[a] == pre.spec_adj()[a]);
                        assert(pre.spec_adj()[a].to != to);
                    }
                }
                assert forall|j: int| 0 <= j < post.spec_adj().len() implies (
                #[trigger] post.spec_adj()[j]).from == post.spec_key() by {
                    if j < m {
                        assert(post.spec_adj()[j] == pre.spec_adj()[j]);
                    }
                }
                assert(post.spec_adj()[m].to == to);
                assert(post.spec_has_edge(to));
                let k = post.spec_edge_index(to);
                assert(0 <= k < post.spec_adj().len() && post.spec_adj()[k].to == to);
                assert(k == m);
                assert forall|t: i64| #[trigger] post.spec_has_edge(t) <==> (pre.spec_has_edge(t)
                    || t == to) by {
                    if post.spec_has_edge(t) && t != to {
                        let a = post.spec_edge_index(t);
                        assert(0 <= a < post.spec_adj().len() && post.spec_adj()[a].to == t);
                        assert(a != m);
                        assert(post.spec_adj()[a] == pre.spec_adj()[a]);
                    }
                    if pre.spec_has_edge(t) {
                        let a = pre.spec_edge_index(t);
                        assert(0 <= a < pre.spec_adj().len() && pre.spec_adj()[a].to == t);
                        assert(post.spec_adj()[a] == pre.spec_adj()[a]);
                        assert(post.spec_adj()[a].to == t);
                    }
                }
                assert forall|t: i64| t != to implies #[trigger] post.spec_get_edge(t)
                    == pre.spec_get_edge(t) by {
                    if pre.spec_has_edge(t) {
                        let a = pre.spec_edge_index(t);
                        assert(0 <= a < pre.spec_adj().len() && pre.spec_adj()[a].to == t);
                        assert(post.spec_adj()[a].to == t);
                        let b = post.spec_edge_index(t);
                        assert(0 <= b < post.spec_adj().len() && post.spec_adj()[b].to == t);
                        assert(b == a);
                    }
                }
            }
        }
        removed
    }

    /// Same as `insert_edge`, with weight zero.
    pub fn insert_edge_unweighted(&mut self, to: i64) -> (r: Option<Edge>)
        requires
            old(self).wf(),
        ensures
            final(self).wf(),
            final(self).spec_key() == old(self).spec_key(),
            final(self).spec_value() == old(self).spec_value(),
            r == old(self).spec_get_edge(to),
            final(self).spec_adj() == old(self).spec_insert_adj(to, 0),
            final(self).spec_get_edge(to) == Some(
                Edge { from: old(self).spec_key(), to, weight: 0 },
            ),
            forall|t: i64|
                #[trigger] final(self).spec_has_edge(t) <==> (old(self).spec_has_edge(t) || t
                    == to),
            forall|t: i64|
                t != to ==> #[trigger] final(self).spec_get_edge(t) == old(self).spec_get_edge(t),
    {
        self.insert_edge(to, 0)
    }

    /// Looks up the edge from this vertex to `to`.
    pub fn get_edge(&self, to: i64) -> (r: Option<&Edge>)
        requires
            self.wf(),
        ensures
            match r {
                Some(e) => self.spec_get_edge(to) == Some(*e),
                None => !self.spec_has_edge(to),
            },
    {
        match self.find_edge_index(to) {
            Some(i) => Some(&self.adj[i]),
            None => None,
        }
    }

    /// Removes the edge from this vertex to `to`, returning it if it existed.
    pub fn remove_edge(&mut self, to: i64) -> (r: Option<Edge>)
        requires
            old(self).wf(),
        ensures
            final(self).wf(),
            final(self).spec_key() == old(self).spec_key(),
            final(self).spec_value() == old(self).spec_value(),
            r == old(self).spec_get_edge(to),
            final(self).spec_adj() == old(self).spec_remove_adj(to),
            !final(self).spec_has_edge(to),
            forall|t: i64|
                #[trigger] final(self).spec_has_edge(t) <==> (old(self).spec_has_edge(t) && t
                    != to),
            forall|t: i64|
                t != to ==> #[trigger] final(self).spec_get_edge(t) == old(self).spec_get_edge(t),
    {
        let ghost pre = *self;
        match self.find_edge_index(to) {
            Some(i) => {
                let e = self.adj.swap_remove(i);
                proof {
                    let post = *self;
                    pre.lemma_swap_remove_edge(to);
                    let s = swap_removed(pre.spec_adj(), pre.spec_edge_index(to));
                    assert(post.spec_adj() == s);
                    assert forall|t: i64| #[trigger] post.spec_has_edge(t) implies (
                    pre.spec_has_edge(t) && t != to) by {
                        let a = post.spec_edge_index(t);
                        assert(0 <= a < s.len() && s[a].to == t);
                        if a == i {
                            assert(s[a] == pre.spec_adj()[pre.spec_adj().len() - 1]);
                        } else {
                            assert(s[a] == pre.spec_adj()[a]);
                        }
                    }
                    assert forall|t: i64| pre.spec_has_edge(t) && t != to implies
                    #[trigger] post.spec_has_edge(t) by {
                        let j = choose|j: int|
                            0 <= j < s.len() && (#[trigger] s[j]) == pre.spec_adj()[
                            pre.spec_edge_index(t)];
                        assert(post.spec_adj()[j].to == t);
                    }
                    assert forall|t: i64| t != to implies #[trigger] post.spec_get_edge(t)
                        == pre.spec_get_edge(t) by {
                        if pre.spec_has_edge(t) {
                            let j = choose|j: int|
                                0 <= j < s.len() && (#[trigger] s[j]) == pre.spec_adj()[
                                pre.spec_edge_index(t)];
                            assert(post.spec_adj()[j].to == t);
                            let a = post.spec_edge_index(t);
                            assert(0 <= a < post.spec_adj().len() && post.spec_adj()[a].to == t);
                            assert(a == j);
                        }
                    }
                }
                Some(e)
            },
            None => None,
        }
    }
}

} // verus!
