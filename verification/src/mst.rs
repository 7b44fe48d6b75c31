//! The minimum spanning tree of the rooms, computed by the `pathfinding`
//! crate.
use pathfinding::prelude::kruskal;
use vstd::prelude::*;

verus! {

/// The edges that Kruskal's algorithm, as `pathfinding::prelude::kruskal`
/// runs it, picks from the weighted edges `(a, b, weight)`, in the order in
/// which it picks them.
pub uninterp spec fn spanning_edges(edges: Seq<(u64, u64, u64)>) -> Seq<(u64, u64, u64)>;

/// Calls `pathfinding::prelude::kruskal` on the weighted edges and collects
/// what it yields.
///
/// Trusted: the result is a function of the edges, and every edge of the
/// result is one of the edges given.
#[verifier::external_body]
pub(crate) fn kruskal_edges(edges: &Vec<(u64, u64, u64)>) -> (tree: Vec<(u64, u64, u64)>)
    ensures
        tree@ == spanning_edges(edges@),
        forall|i: int| 0 <= i < tree@.len() ==> edges@.contains(#[trigger] tree@[i]),
{
    kruskal(edges).map(|(a, b, w)| (*a, *b, w)).collect()
}

} // verus!
