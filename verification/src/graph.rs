use vstd::prelude::*;

use core::marker::PhantomData;

use crate::edge::Edge;
use crate::marker::{Directed, GraphType};
use crate::vertex::Vertex;

verus! {

/// A directed or undirected in-memory graph: a store of vertices with unique
/// keys, each carrying a value and its list of outgoing edges.
///
/// The `Type` marker fixes the edge semantics (directed or undirected) for the
/// whole lifetime of the graph; it carries no run-time data. Vertices are kept
/// in insertion order.
pub struct Graph<Value, Type: GraphType = Directed> {
    vertices: Vec<Vertex<Value>>,
    _type: PhantomData<Type>,
}

impl<Value, Type: GraphType> Graph<Value, Type> {
    /// The vertex store, in insertion order.
    pub closed spec fn spec_vertices(self) -> Seq<Vertex<Value>> {
        self.vertices@
    }

    /// Keys are pairwise distinct and every vertex is well formed.
    pub open spec fn wf(self) -> bool {
        &&& forall|i: int, j: int|
            0 <= i < self.spec_vertices().len() && 0 <= j < self.spec_vertices().len() && i != j
                ==> (#[trigger] self.spec_vertices()[i]).spec_key() != (
            #[trigger] self.spec_vertices()[j]).spec_key()
        &&& forall|i: int|
            0 <= i < self.spec_vertices().len() ==> (#[trigger] self.spec_vertices()[i]).wf()
    }

    /// Whether a vertex with key `k` is in the graph.
    pub open spec fn spec_contains(self, k: i64) -> bool {
        exists|i: int|
            0 <= i < self.spec_vertices().len() && (#[trigger] self.spec_vertices()[i]).spec_key()
                == k
    }

    /// The position of the vertex with key `k`; unique when the graph is well formed.
    pub open spec fn spec_index_of(self, k: i64) -> int {
        choose|i: int|
            0 <= i < self.spec_vertices().len() && (#[trigger] self.spec_vertices()[i]).spec_key()
                == k
    }

    /// The vertex stored under key `k`.
    pub open spec fn spec_vertex(self, k: i64) -> Vertex<Value> {
        self.spec_vertices()[self.spec_index_of(k)]
    }

    /// Whether the graph holds an edge from `from` to `to`.
    pub open spec fn spec_has_edge(self, from: i64, to: i64) -> bool {
        self.spec_contains(from) && self.spec_vertex(from).spec_has_edge(to)
    }

    /// The edge from `from` to `to`, if both the source vertex and the edge exist.
    pub open spec fn spec_get_edge(self, from: i64, to: i64) -> Option<Edge> {
        if self.spec_contains(from) {
            self.spec_vertex(from).spec_get_edge(to)
        } else {
            None
        }
    }

    /// The weight of the edge from `from` to `to`; meaningful only when that
    /// edge exists.
    pub open spec fn spec_edge_weight(self, from: i64, to: i64) -> i64 {
        self.spec_vertex(from).spec_adj()[self.spec_vertex(from).spec_edge_index(to)].weight
    }

    /// The pairing invariant of undirected graphs: an edge between two
    /// vertices exists in one direction exactly when its mirror exists in the
    /// other, and the two carry the same weight.
    pub open spec fn edge_sym(self) -> bool {
        forall|a: i64, b: i64|
            #[trigger] self.spec_has_edge(a, b) ==> self.spec_has_edge(b, a)
                && self.spec_edge_weight(a, b) == self.spec_edge_weight(b, a)
    }

    /// No edge dangles: every edge's target key is present in the graph.
    pub open spec fn spec_closed(self) -> bool {
        forall|p: int, q: int|
            0 <= p < self.spec_vertices().len() && 0 <= q < self.spec_vertices()[
            p].spec_adj().len() ==> self.spec_contains(
                (#[trigger] self.spec_vertices()[p].spec_adj()[q]).to,
            )
    }

    /// In a well-formed graph each stored vertex is found at its own slot.
    pub proof fn lemma_vertex_at_index(self, i: int)
        requires
            self.wf(),
            0 <= i < self.spec_vertices().len(),
        ensures
            self.spec_contains(self.spec_vertices()[i].spec_key()),
            self.spec_index_of(self.spec_vertices()[i].spec_key()) == i,
            self.spec_vertex(self.spec_vertices()[i].spec_key()) == self.spec_vertices()[i],
    {
        let k = self.spec_vertices()[i].spec_key();
        assert(self.spec_contains(k));
        let j = self.spec_index_of(k);
        assert(0 <= j < self.spec_vertices().len() && self.spec_vertices()[j].spec_key() == k);
        assert(j == i);
    }

    /// Replacing the vertex stored under some key with another well-formed
    /// vertex carrying the same key keeps the graph well formed and leaves
    /// every other vertex in place.
    pub proof fn lemma_update_vertex(pre: Self, post: Self, v2: Vertex<Value>)
        requires
            pre.wf(),
            pre.spec_contains(v2.spec_key()),
            v2.wf(),
            post.spec_vertices() == pre.spec_vertices().update(
                pre.spec_index_of(v2.spec_key()),
                v2,
            ),
        ensures
            post.wf(),
            post.spec_vertices().len() == pre.spec_vertices().len(),
            forall|t: i64| #[trigger] post.spec_contains(t) <==> pre.spec_contains(t),
            post.spec_vertex(v2.spec_key()) == v2,
            post.spec_index_of(v2.spec_key()) == pre.spec_index_of(v2.spec_key()),
            forall|t: i64|
                t != v2.spec_key() && pre.spec_contains(t) ==> #[trigger] post.spec_vertex(t)
                    == pre.spec_vertex(t) && post.spec_index_of(t) == pre.spec_index_of(t),
    {
        let key = v2.spec_key();
        let i = pre.spec_index_of(key);
        assert(0 <= i < pre.spec_vertices().len() && pre.spec_vertices()[i].spec_key() == key);
        assert(post.spec_vertices()[i] == v2);
        assert forall|a: int, b: int|
            0 <= a < post.spec_vertices().len() && 0 <= b < post.spec_vertices().len() && a != b
            implies (#[trigger] post.spec_vertices()[a]).spec_key() != (
        #[trigger] post.spec_vertices()[b]).spec_key() by {
            if a != i && b != i {
                assert(post.spec_vertices()[a] == pre.spec_vertices()[a]);
                assert(post.spec_vertices()[b] == pre.spec_vertices()[b]);
            } else if a == i {
                assert(post.spec_vertices()[b] == pre.spec_vertices()[b]);
                assert(pre.spec_vertices()[b].spec_key() != pre.spec_vertices()[i].spec_key());
            } else {
                assert(post.spec_vertices()[a] == pre.spec_vertices()[a]);
                assert(pre.spec_vertices()[a].spec_key() != pre.spec_vertices()[i].spec_key());
            }
        }
        assert forall|j: int| 0 <= j < post.spec_vertices().len() implies (
        #[trigger] post.spec_vertices()[j]).wf() by {
            if j != i {
                assert(post.spec_vertices()[j] == pre.spec_vertices()[j]);
            }
        }
        post.lemma_vertex_at_index(i);
        assert forall|t: i64| #[trigger] post.spec_contains(t) <==> pre.spec_contains(t) by {
            if post.spec_contains(t) && t != key {
                let a = post.spec_index_of(t);
                assert(0 <= a < post.spec_vertices().len() && post.spec_vertices()[a].spec_key()
                    == t);
                assert(a != i);
                assert(pre.spec_vertices()[a].spec_key() == t);
                assert(pre.spec_contains(t));
            }
            if pre.spec_contains(t) && t != key {
                let a = pre.spec_index_of(t);
                assert(0 <= a < pre.spec_vertices().len() && pre.spec_vertices()[a].spec_key()
                    == t);
                assert(a != i);
                assert(post.spec_vertices()[a].spec_key() == t);
                assert(post.spec_contains(t));
            }
        }
        assert forall|t: i64| t != key && pre.spec_contains(t) implies #[trigger] post.spec_vertex(
            t,
        ) == pre.spec_vertex(t) && post.spec_index_of(t) == pre.spec_index_of(t) by {
            let a = pre.spec_index_of(t);
            assert(0 <= a < pre.spec_vertices().len() && pre.spec_vertices()[a].spec_key() == t);
            assert(a != i);
            assert(post.spec_vertices()[a].spec_key() == t);
            post.lemma_vertex_at_index(a);
            pre.lemma_vertex_at_index(a);
        }
    }

    pub fn new() -> (g: Graph<Value, Type>)
        ensures
            g.spec_vertices() == Seq::<Vertex<Value>>::empty(),
            g.wf(),
    {
        let g = Graph { vertices: Vec::new(), _type: PhantomData };
        proof {
            assert(g.spec_vertices() =~= Seq::<Vertex<Value>>::empty());
        }
        g
    }

    pub fn with_capacity(capacity: usize) -> (g: Graph<Value, Type>)
        ensures
            g.spec_vertices() == Seq::<Vertex<Value>>::empty(),
            g.wf(),
    {
        let g = Graph { vertices: Vec::with_capacity(capacity), _type: PhantomData };
        proof {
            assert(g.spec_vertices() =~= Seq::<Vertex<Value>>::empty());
        }
        g
    }

    /// Position of the vertex with key `k` in the store, if any.
    fn find_vertex_index(&self, k: i64) -> (r: Option<usize>)
        requires
            self.wf(),
        ensures
            match r {
                Some(i) => self.spec_contains(k) && i == self.spec_index_of(k) && 0 <= i
                    < self.spec_vertices().len() && self.spec_vertices()[i as int].spec_key() == k,
                None => !self.spec_contains(k),
            },
    {
        let n = self.vertices.len();
        let mut i: usize = 0;
        while i < n
            invariant
                self.wf(),
                n == self.spec_vertices().len(),
                0 <= i <= n,
                forall|j: int| 0 <= j < i ==> (#[trigger] self.spec_vertices()[j]).spec_key() != k,
            decreases n - i,
        {
            if self.vertices[i].key() == k {
                proof {
                    assert(self.spec_vertices()[i as int].spec_key() == k);
                    assert(self.spec_contains(k));
                    let j = self.spec_index_of(k);
                    assert(0 <= j < self.spec_vertices().len() && self.spec_vertices()[j].spec_key()
                        == k);
                    assert(j == i);
                }
                return Some(i);
            }
            proof {
                assert(self.spec_vertices()[i as int].spec_key() != k);
            }
            i += 1;
        }
        proof {
            if self.spec_contains(k) {
                let j = self.spec_index_of(k);
                assert(0 <= j < self.spec_vertices().len() && self.spec_vertices()[j].spec_key()
                    == k);
            }
        }
        None
    }

    /// Returns true when a vertex with the given key exists.
    pub fn contains(&self, key: i64) -> (r: bool)
        requires
            self.wf(),
        ensures
            r == self.spec_contains(key),
    {
        self.find_vertex_index(key).is_some()
    }

    /// The number of vertices in the graph.
    pub fn len(&self) -> (n: usize)
        ensures
            n == self.spec_vertices().len(),
    {
        self.vertices.len()
    }

    /// Returns true when the graph holds no vertex.
    pub fn is_empty(&self) -> (r: bool)
        ensures
            r == (self.spec_vertices().len() == 0),
    {
        self.vertices.is_empty()
    }

    /// Removes every vertex (and with them every edge).
    pub fn clear(&mut self)
        ensures
            final(self).spec_vertices() == Seq::<Vertex<Value>>::empty(),
            final(self).wf(),
    {
        self.vertices.clear();
        proof {
            assert(self.spec_vertices() =~= Seq::<Vertex<Value>>::empty());
        }
    }

    /// Inserts a vertex under its own key. A vertex already stored under that
    /// key is replaced in place — its slot is reused — and returned.
    pub fn insert_vertex(&mut self, vertex: Vertex<Value>) -> (r: Option<Vertex<Value>>)
        requires
            old(self).wf(),
            vertex.wf(),
        ensures
            final(self).wf(),
            r == if old(self).spec_contains(vertex.spec_key()) {
                Some(old(self).spec_vertex(vertex.spec_key()))
            } else {
                None::<Vertex<Value>>
            },
            final(self).spec_vertices() == if old(self).spec_contains(vertex.spec_key()) {
                old(self).spec_vertices().update(
                    old(self).spec_index_of(vertex.spec_key()),
                    vertex,
                )
            } else {
                old(self).spec_vertices().push(vertex)
            },
            forall|t: i64|
                #[trigger] final(self).spec_contains(t) <==> (old(self).spec_contains(t) || t
                    == vertex.spec_key()),
            final(self).spec_vertex(vertex.spec_key()) == vertex,
            forall|t: i64|
                t != vertex.spec_key() && old(self).spec_contains(t)
                    ==> #[trigger] final(self).spec_vertex(t) == old(self).spec_vertex(t)
                    && final(self).spec_index_of(t) == old(self).spec_index_of(t),
    {
        let ghost pre = *self;
        let ghost key = vertex.spec_key();
        let r = match self.find_vertex_index(vertex.key()) {
            Some(i) => {
                let mut vertex = vertex;
                core::mem::swap(&mut self.vertices[i], &mut vertex);
                Some(vertex)
            },
            None => {
                self.vertices.push(vertex);
                None
            },
        };
        proof {
            let post = *self;
            if pre.spec_contains(key) {
                let i = pre.spec_index_of(key);
                assert(post.spec_vertices() =~= pre.spec_vertices().update(i, vertex));
                Self::lemma_update_vertex(pre, post, vertex);
            } else {
                let m = pre.spec_vertices().len() as int;
                assert(post.spec_vertices() == pre.spec_vertices().push(vertex));
                assert forall|j: int| 0 <= j < m implies (
                #[trigger] pre.spec_vertices()[j]).spec_key() != key by {}
                assert forall|a: int, b: int|
                    0 <= a < post.spec_vertices().len() && 0 <= b < post.spec_vertices().len() && a
                        != b implies (#[trigger] post.spec_vertices()[a]).spec_key() != (
                #[trigger] post.spec_vertices()[b]).spec_key() by {
                    if a < m && b < m {
                        assert(post.spec_vertices()[a] == pre.spec_vertices()[a]);
                        assert(post.spec_vertices()[b] == pre.spec_vertices()[b]);
                    } else if a == m {
                        assert(post.spec_vertices()[b] == pre.spec_vertices()[b]);
                    } else {
                        assert(post.spec_vertices()[a] == pre.spec_vertices()[a]);
                    }
                }
                assert forall|j: int| 0 <= j < post.spec_vertices().len() implies (
                #[trigger] post.spec_vertices()[j]).wf() by {
                    if j < m {
                        assert(post.spec_vertices()[j] == pre.spec_vertices()[j]);
                    }
                }
                assert(post.spec_vertices()[m].spec_key() == key);
                post.lemma_vertex_at_index(m);
                assert forall|t: i64| #[trigger] post.spec_contains(t) <==> (pre.spec_contains(t)
                    || t == key) by {
                    if post.spec_contains(t) && t != key {
                        let a = post.spec_index_of(t);
                        assert(0 <= a < post.spec_vertices().len()
                            && post.spec_vertices()[a].spec_key() == t);
                        assert(a != m);
                        assert(pre.spec_vertices()[a].spec_key() == t);
                    }
                    if pre.spec_contains(t) {
                        let a = pre.spec_index_of(t);
                        assert(0 <= a < pre.spec_vertices().len()
                            && pre.spec_vertices()[a].spec_key() == t);
                        assert(post.spec_vertices()[a].spec_key() == t);
                    }
                }
                assert forall|t: i64| t != key && pre.spec_contains(t) implies
                #[trigger] post.spec_vertex(t) == pre.spec_vertex(t) && post.spec_index_of(t)
                    == pre.spec_index_of(t) by {
                    let a = pre.spec_index_of(t);
                    assert(0 <= a < pre.spec_vertices().len() && pre.spec_vertices()[a].spec_key()
                        == t);
                    assert(post.spec_vertices()[a].spec_key() == t);
                    post.lemma_vertex_at_index(a);
                    pre.lemma_vertex_at_index(a);
                }
            }
        }
        r
    }

    /// Inserts a fresh vertex holding `value` under `key`. When the key was
    /// already taken, the stored vertex is replaced — its edges are dropped
    /// with it — and its former value is returned.
    pub fn insert(&mut self, key: i64, value: Value) -> (r: Option<Value>)
        requires
            old(self).wf(),
        ensures
            final(self).wf(),
            r matches Some(v) ==> old(self).spec_contains(key) && v == old(self).spec_vertex(
                key,
            ).spec_value(),
            r is None ==> !old(self).spec_contains(key),
            forall|t: i64|
                #[trigger] final(self).spec_contains(t) <==> (old(self).spec_contains(t) || t
                    == key),
            final(self).spec_vertex(key).spec_key() == key,
            final(self).spec_vertex(key).spec_value() == value,
            final(self).spec_vertex(key).spec_adj() == Seq::<Edge>::empty(),
            forall|t: i64|
                t != key && old(self).spec_contains(t) ==> #[trigger] final(self).spec_vertex(t)
                    == old(self).spec_vertex(t),
            final(self).spec_vertices().len() == old(self).spec_vertices().len() + (
            if old(self).spec_contains(key) {
                0int
            } else {
                1int
            }),
            final(self).spec_index_of(key) == if old(self).spec_contains(key) {
                old(self).spec_index_of(key)
            } else {
                old(self).spec_vertices().len() as int
            },
            forall|i: int|
                0 <= i < final(self).spec_vertices().len() && i != final(self).spec_index_of(key)
                    ==> #[trigger] final(self).spec_vertices()[i] == old(self).spec_vertices()[i],
    {
        let ghost pre = *self;
        let r = match self.insert_vertex(Vertex::new(key, value)) {
            Some(v) => Some(v.into_value()),
            None => None,
        };
        proof {
            let post = *self;
            let idx = post.spec_index_of(key);
            if pre.spec_contains(key) {
                assert(post.spec_vertices() == pre.spec_vertices().update(
                    pre.spec_index_of(key),
                    post.spec_vertex(key),
                ));
                post.lemma_vertex_at_index(pre.spec_index_of(key));
            } else {
                assert(post.spec_vertices() == pre.spec_vertices().push(post.spec_vertex(key)));
                assert(post.spec_vertices()[pre.spec_vertices().len() as int].spec_key() == key);
                post.lemma_vertex_at_index(pre.spec_vertices().len() as int);
            }
            assert forall|i: int|
                0 <= i < post.spec_vertices().len() && i != post.spec_index_of(key) implies
            #[trigger] post.spec_vertices()[i] == pre.spec_vertices()[i] by {}
        }
        r
    }

    /// The vertex stored under `key`, if any.
    pub fn get_vertex(&self, key: i64) -> (r: Option<&Vertex<Value>>)
        requires
            self.wf(),
        ensures
            match r {
                Some(v) => self.spec_contains(key) && *v == self.spec_vertex(key),
                None => !self.spec_contains(key),
            },
    {
        match self.find_vertex_index(key) {
            Some(i) => Some(&self.vertices[i]),
            None => None,
        }
    }

    /// Exclusive access to the vertex stored under `key`, if any.
    pub fn get_vertex_mut(&mut self, key: i64) -> (r: Option<&mut Vertex<Value>>)
        requires
            old(self).wf(),
        ensures
            match r {
                Some(v) => {
                    &&& old(self).spec_contains(key)
                    &&& *v == old(self).spec_vertex(key)
                    &&& final(self).spec_vertices() == old(self).spec_vertices().update(
                        old(self).spec_index_of(key),
                        *final(v),
                    )
                },
                None => !old(self).spec_contains(key) && *final(self) == *old(self),
            },
    {
        match self.find_vertex_index(key) {
            Some(i) => Some(&mut self.vertices[i]),
            None => None,
        }
    }

    /// The value stored under `key`, if any.
    pub fn get(&self, key: i64) -> (r: Option<&Value>)
        requires
            self.wf(),
        ensures
            match r {
                Some(v) => self.spec_contains(key) && *v == self.spec_vertex(key).spec_value(),
                None => !self.spec_contains(key),
            },
    {
        match self.get_vertex(key) {
            Some(v) => Some(v.value()),
            None => None,
        }
    }

    /// Exclusive access to the value stored under `key`, if any. The caller
    /// may change the value; the key and the edges of the vertex stay as they
    /// are, so the graph remains well formed.
    pub fn get_mut(&mut self, key: i64) -> (r: Option<&mut Value>)
        requires
            old(self).wf(),
        ensures
            match r {
                Some(v) => {
                    &&& old(self).spec_contains(key)
                    &&& *v == old(self).spec_vertex(key).spec_value()
                    &&& final(self).spec_vertices() == old(self).spec_vertices().update(
                        old(self).spec_index_of(key),
                        old(self).spec_vertex(key).spec_with_value(*final(v)),
                    )
                },
                None => !old(self).spec_contains(key) && *final(self) == *old(self),
            },
    {
        match self.find_vertex_index(key) {
            Some(i) => {
                let v = &mut self.vertices[i];
                Some(v.value_mut())
            },
            None => None,
        }
    }

    /// Removes the vertex stored under `key` and returns it. Every edge of any
    /// remaining vertex that targets `key` is dropped as well, so no dangling
    /// edge survives — also when no vertex was stored under `key`.
    pub fn remove_vertex(&mut self, key: i64) -> (r: Option<Vertex<Value>>)
        requires
            old(self).wf(),
        ensures
            final(self).wf(),
            r == if old(self).spec_contains(key) {
                Some(old(self).spec_vertex(key))
            } else {
                None::<Vertex<Value>>
            },
            forall|t: i64|
                #[trigger] final(self).spec_contains(t) <==> (old(self).spec_contains(t) && t
                    != key),
            final(self).spec_vertices().len() == old(self).spec_vertices().len() - (
            if old(self).spec_contains(key) {
                1int
            } else {
                0int
            }),
            ({
                let idx = if old(self).spec_contains(key) {
                    old(self).spec_index_of(key)
                } else {
                    old(self).spec_vertices().len() as int
                };
                forall|i: int|
                    0 <= i < final(self).spec_vertices().len() ==> {
                        let prev = old(self).spec_vertices()[if i < idx {
                            i
                        } else {
                            i + 1
                        }];
                        &&& (#[trigger] final(self).spec_vertices()[i]).spec_key()
                            == prev.spec_key()
                        &&& final(self).spec_vertices()[i].spec_value() == prev.spec_value()
                        &&& final(self).spec_vertices()[i].spec_adj() == prev.spec_remove_adj(key)
                    }
            }),
            forall|i: int|
                0 <= i < final(self).spec_vertices().len()
                    ==> !(#[trigger] final(self).spec_vertices()[i]).spec_has_edge(key),
    {
        let ghost pre = *self;
        let ghost idx: int = if pre.spec_contains(key) {
            pre.spec_index_of(key)
        } else {
            pre.spec_vertices().len() as int
        };
        let r = match self.find_vertex_index(key) {
            Some(i) => Some(self.vertices.remove(i)),
            None => None,
        };
        proof {
            let mid = *self;
            if pre.spec_contains(key) {
                pre.spec_vertices().remove_ensures(idx);
                assert(mid.spec_vertices() == pre.spec_vertices().remove(idx));
            } else {
                assert(mid.spec_vertices() == pre.spec_vertices());
            }
            // In either case the store now reads as `pre` with slot `idx` skipped.
            assert forall|j: int| 0 <= j < mid.spec_vertices().len() implies
            #[trigger] mid.spec_vertices()[j] == pre.spec_vertices()[
            if j < idx {
                j
            } else {
                j + 1
            }] by {}
        }
        let ghost mid = *self;
        let n = self.vertices.len();
        let mut i: usize = 0;
        while i < n
            invariant
                n == self.spec_vertices().len(),
                n == mid.spec_vertices().len(),
                0 <= i <= n,
                forall|j: int|
                    0 <= j < mid.spec_vertices().len() ==> (#[trigger] mid.spec_vertices()[j]).wf(),
                forall|a: int, b: int|
                    0 <= a < mid.spec_vertices().len() && 0 <= b < mid.spec_vertices().len() && a
                        != b ==> (#[trigger] mid.spec_vertices()[a]).spec_key() != (
                    #[trigger] mid.spec_vertices()[b]).spec_key(),
                forall|j: int| i <= j < n ==> #[trigger] self.spec_vertices()[j]
                    == mid.spec_vertices()[j],
                forall|j: int|
                    0 <= j < i ==> {
                        &&& (#[trigger] self.spec_vertices()[j]).spec_key()
                            == mid.spec_vertices()[j].spec_key()
                        &&& self.spec_vertices()[j].spec_value()
                            == mid.spec_vertices()[j].spec_value()
                        &&& self.spec_vertices()[j].spec_adj() == mid.spec_vertices()[
                        j].spec_remove_adj(key)
                        &&& self.spec_vertices()[j].wf()
                        &&& !self.spec_vertices()[j].spec_has_edge(key)
                    },
            decreases n - i,
        {
            let v = &mut self.vertices[i];
            let _ = v.remove_edge(key);
            i += 1;
        }
        proof {
            let post = *self;
            assert forall|a: int, b: int|
                0 <= a < post.spec_vertices().len() && 0 <= b < post.spec_vertices().len() && a != b
                implies (#[trigger] post.spec_vertices()[a]).spec_key() != (
            #[trigger] post.spec_vertices()[b]).spec_key() by {
                assert(post.spec_vertices()[a].spec_key() == mid.spec_vertices()[a].spec_key());
                assert(post.spec_vertices()[b].spec_key() == mid.spec_vertices()[b].spec_key());
            }
            if pre.spec_contains(key) {
                assert(0 <= idx < pre.spec_vertices().len() && pre.spec_vertices()[idx].spec_key()
                    == key);
            }
            assert forall|t: i64| #[trigger] post.spec_contains(t) <==> (pre.spec_contains(t) && t
                != key) by {
                if post.spec_contains(t) {
                    let a = post.spec_index_of(t);
                    assert(0 <= a < post.spec_vertices().len() && post.spec_vertices()[a].spec_key()
                        == t);
                    let a2: int = if a < idx {
                        a
                    } else {
                        a + 1
                    };
                    assert(mid.spec_vertices()[a].spec_key() == t);
                    assert(pre.spec_vertices()[a2].spec_key() == t);
                    assert(pre.spec_contains(t));
                    if pre.spec_contains(key) {
                        assert(a2 != idx);
                        assert(t != key);
                    } else {
                        assert(t != key);
                    }
                }
                if pre.spec_contains(t) && t != key {
                    let a = pre.spec_index_of(t);
                    assert(0 <= a < pre.spec_vertices().len() && pre.spec_vertices()[a].spec_key()
                        == t);
                    assert(a != idx);
                    let a2: int = if a < idx {
                        a
                    } else {
                        a - 1
                    };
                    assert(pre.spec_vertices()[if a2 < idx {
                        a2
                    } else {
                        a2 + 1
                    }] == pre.spec_vertices()[a]);
                    assert(mid.spec_vertices()[a2].spec_key() == t);
                    assert(post.spec_vertices()[a2].spec_key() == t);
                    assert(post.spec_contains(t));
                }
            }
        }
        r
    }

    /// Removes the vertex stored under `key` and returns its value, dropping
    /// every remaining edge that targets `key`.
    pub fn remove(&mut self, key: i64) -> (r: Option<Value>)
        requires
            old(self).wf(),
        ensures
            final(self).wf(),
            r == if old(self).spec_contains(key) {
                Some(old(self).spec_vertex(key).spec_value())
            } else {
                None::<Value>
            },
            forall|t: i64|
                #[trigger] final(self).spec_contains(t) <==> (old(self).spec_contains(t) && t
                    != key),
            final(self).spec_vertices().len() == old(self).spec_vertices().len() - (
            if old(self).spec_contains(key) {
                1int
            } else {
                0int
            }),
            ({
                let idx = if old(self).spec_contains(key) {
                    old(self).spec_index_of(key)
                } else {
                    old(self).spec_vertices().len() as int
                };
                forall|i: int|
                    0 <= i < final(self).spec_vertices().len() ==> {
                        let prev = old(self).spec_vertices()[if i < idx {
                            i
                        } else {
                            i + 1
                        }];
                        &&& (#[trigger] final(self).spec_vertices()[i]).spec_key()
                            == prev.spec_key()
                        &&& final(self).spec_vertices()[i].spec_value() == prev.spec_value()
                        &&& final(self).spec_vertices()[i].spec_adj() == prev.spec_remove_adj(key)
                    }
            }),
            forall|i: int|
                0 <= i < final(self).spec_vertices().len()
                    ==> !(#[trigger] final(self).spec_vertices()[i]).spec_has_edge(key),
    {
        match self.remove_vertex(key) {
            Some(v) => Some(v.into_value()),
            None => None,
        }
    }

    /// The edge from `from` to `to`, if the source vertex holds one.
    pub fn get_edge(&self, from: i64, to: i64) -> (r: Option<&Edge>)
        requires
            self.wf(),
        ensures
            match r {
                Some(e) => self.spec_get_edge(from, to) == Some(*e),
                None => self.spec_get_edge(from, to) is None,
            },
    {
        match self.get_vertex(from) {
            Some(v) => v.get_edge(to),
            None => None,
        }
    }

    /// The vertex store itself, for walking over every vertex.
    pub fn vertecies(&self) -> (r: &Vec<Vertex<Value>>)
        ensures
            r@ == self.spec_vertices(),
    {
        &self.vertices
    }

    /// Exclusive access to the vertex store, for walking over every vertex.
    pub fn vertecies_mut(&mut self) -> (r: &mut Vec<Vertex<Value>>)
        ensures
            r@ == old(self).spec_vertices(),
            final(self).spec_vertices() == final(r)@,
    {
        &mut self.vertices
    }
}

impl<Value, Type: GraphType> Default for Graph<Value, Type> {
    fn default() -> (g: Graph<Value, Type>)
        ensures
            g.spec_vertices() == Seq::<Vertex<Value>>::empty(),
            g.wf(),
    {
        Graph::new()
    }
}

} // verus!
