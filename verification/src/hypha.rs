//! A single network link between two nodes.
use vstd::prelude::*;

verus! {

/// A link between two nodes, identified by `id`.
///
/// The link is undirected: `source` and `target` only record the order in
/// which its two ends were given.
#[derive(Clone, Copy, Debug, PartialEq, Eq, Structural)]
pub struct Hypha {
    pub id: u64,
    pub source: u64,
    pub target: u64,
}

/// Whether link `h` joins `a` and `b`, in either direction.
pub open spec fn link_joins(h: Hypha, a: u64, b: u64) -> bool {
    (h.source == a && h.target == b) || (h.source == b && h.target == a)
}

/// The end of `h` opposite to `node`; the target is preferred when `node`
/// is the source.
pub open spec fn far_end(h: Hypha, node: u64) -> Option<u64> {
    if h.source == node {
        Some(h.target)
    } else if h.target == node {
        Some(h.source)
    } else {
        None
    }
}

impl Hypha {
    /// A link with the given identifier between `source` and `target`.
    pub fn new(id: u64, source: u64, target: u64) -> (h: Self)
        ensures
            h.id == id,
            h.source == source,
            h.target == target,
    {
        Hypha { id, source, target }
    }

    /// Whether this link joins `node_a` and `node_b`, in either direction.
    pub fn connects(&self, node_a: u64, node_b: u64) -> (r: bool)
        ensures
            r == link_joins(*self, node_a, node_b),
    {
        (self.source == node_a && self.target == node_b) || (self.source == node_b && self.target
            == node_a)
    }

    /// The end opposite to `node_id`, or `None` when the link does not touch it.
    pub fn other_end(&self, node_id: u64) -> (r: Option<u64>)
        ensures
            r == far_end(*self, node_id),
    {
        if self.source == node_id {
            Some(self.target)
        } else if self.target == node_id {
            Some(self.source)
        } else {
            None
        }
    }
}

/// Joining is symmetric: a link joins `a` to `b` exactly when it joins `b` to `a`.
pub proof fn connects_is_symmetric(h: Hypha, a: u64, b: u64)
    ensures
        link_joins(h, a, b) == link_joins(h, b, a),
{
}

/// `other_end` finds exactly the nodes a link joins to `node`, and going to
/// the far end and back returns to `node`.
pub proof fn other_end_round_trip(h: Hypha, node: u64, m: u64)
    ensures
        far_end(h, node) == Some(m) <==> link_joins(h, node, m),
        far_end(h, node) == Some(m) ==> far_end(h, m) == Some(node),
{
}

} // verus!
