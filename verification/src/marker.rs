use vstd::prelude::*;

verus! {

/// Marker trait selecting a graph's edge semantics. The marker is part of the
/// graph's type, so the choice between directed and undirected behaviour is
/// fixed for the whole lifetime of a graph.
pub trait GraphType {
    /// The name of the marker, as a specification-level sequence of characters.
    spec fn spec_name() -> Seq<char>;

    fn name() -> (r: &'static str)
        ensures
            r@ == Self::spec_name(),
    ;
}

/// Marker for graphs whose edges point one way only.
pub struct Directed;

impl GraphType for Directed {
    open spec fn spec_name() -> Seq<char> {
        "Directed"@
    }

    fn name() -> (r: &'static str)
        ensures
            r@ == Self::spec_name(),
    {
        "Directed"
    }
}

/// Marker for graphs whose edges are kept mirrored in both directions.
pub struct Undirected;

impl GraphType for Undirected {
    open spec fn spec_name() -> Seq<char> {
        "Undirected"@
    }

    fn name() -> (r: &'static str)
        ensures
            r@ == Self::spec_name(),
    {
        "Undirected"
    }
}

} // verus!
