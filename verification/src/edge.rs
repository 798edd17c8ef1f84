use vstd::prelude::*;
use vstd::std_specs::cmp::PartialEqSpec;

verus! {

/// A directed link from one vertex to another, carrying a weight.
///
/// An edge's identity is its `(from, to)` pair alone: two edges with the same
/// endpoints are the same edge even when their weights differ, so re-inserting
/// an edge with a new weight replaces the old one.
#[derive(Clone, Copy, Debug)]
pub struct Edge {
    /// Key of the source vertex.
    pub from: i64,

    /// Key of the destination vertex.
    pub to: i64,

    /// Weight of the edge; payload, not identity.
    pub weight: i64,
}

impl Edge {
    pub fn new(from: i64, to: i64, weight: i64) -> (e: Edge)
        ensures
            e == (Edge { from, to, weight }),
    {
        Edge { from, to, weight }
    }

    pub fn new_unweighted(from: i64, to: i64) -> (e: Edge)
        ensures
            e == (Edge { from, to, weight: 0 }),
    {
        Edge::new(from, to, 0)
    }

    pub fn from(&self) -> (k: i64)
        ensures
            k == self.from,
    {
        self.from
    }

    pub fn to(&self) -> (k: i64)
        ensures
            k == self.to,
    {
        self.to
    }
}

impl PartialEq for Edge {
    fn eq(&self, other: &Edge) -> (r: bool) {
        self.from == other.from && self.to == other.to
    }
}

impl vstd::std_specs::cmp::PartialEqSpecImpl for Edge {
    open spec fn obeys_eq_spec() -> bool {
        true
    }

    open spec fn eq_spec(&self, other: &Edge) -> bool {
        self.from == other.from && self.to == other.to
    }
}

/// Edge identity ignores the weight: edges with equal endpoints compare equal
/// whatever their weights, and edges whose source or destination differ never
/// compare equal.
pub proof fn lemma_edge_identity(a: i64, b: i64, c: i64, w1: i64, w2: i64)
    ensures
        (Edge { from: a, to: b, weight: w1 }).eq_spec(&(Edge { from: a, to: b, weight: w2 })),
        c != b ==> !(Edge { from: a, to: b, weight: w1 }).eq_spec(
            &(Edge { from: a, to: c, weight: w2 }),
        ),
        c != a ==> !(Edge { from: a, to: b, weight: w1 }).eq_spec(
            &(Edge { from: c, to: b, weight: w2 }),
        ),
{
}

} // verus!
