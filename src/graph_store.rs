//! The waypoint graph is a `petgraph::Graph`. Its contents are known to
//! Verus through two names, the node weights and the edge list in insertion
//! order, which the wrappers below relate to each call they make.
use vstd::prelude::*;
use petgraph::graph::NodeIndex;
use petgraph::visit::EdgeRef;

verus! {

#[verifier::external_type_specification]
#[verifier::external_body]
#[verifier::reject_recursive_types(N)]
#[verifier::reject_recursive_types(E)]
#[verifier::reject_recursive_types(Ty)]
#[verifier::reject_recursive_types(Ix)]
pub struct ExGraph<N, E, Ty, Ix>(petgraph::Graph<N, E, Ty, Ix>);

#[verifier::external_type_specification]
#[verifier::external_body]
pub struct ExUndirected(petgraph::Undirected);

/// Node weights are positions `(x, y, z)`, edge weights traversal costs;
/// node handles are plain `usize` indices.
pub type PetGraph = petgraph::Graph<(i32, i32, i32), u64, petgraph::Undirected, usize>;

/// The node weights of a graph, by node index.
pub uninterp spec fn graph_nodes(g: petgraph::Graph<(i32, i32, i32), u64, petgraph::Undirected, usize>) -> Seq<(i32, i32, i32)>;

/// The edges of a graph, by edge index: `(endpoint, endpoint, weight)`.
pub uninterp spec fn graph_edges(g: petgraph::Graph<(i32, i32, i32), u64, petgraph::Undirected, usize>) -> Seq<(int, int, u64)>;

/// Edge `e` joins `a` to `other` with weight `w`, in either direction.
pub open spec fn edge_joins(e: (int, int, u64), a: int, other: int, w: u64) -> bool {
    e.2 == w && ((e.0 == a && e.1 == other) || (e.1 == a && e.0 == other))
}

/// Some edge of `es` joins `a` to `other` with weight `w`.
pub open spec fn has_edge(es: Seq<(int, int, u64)>, a: int, other: int, w: u64) -> bool {
    exists|k: int| 0 <= k < es.len() && #[trigger] edge_joins(es[k], a, other, w)
}

/// Relies on petgraph's `Graph::default`: a graph with no node and no edge.
#[verifier::external_body]
pub(crate) fn new_graph() -> (g: PetGraph)
    ensures
        graph_nodes(g) == Seq::<(i32, i32, i32)>::empty(),
        graph_edges(g) == Seq::<(int, int, u64)>::empty(),
{
    petgraph::Graph::default()
}

/// Relies on petgraph's `Graph::node_count`: the number of nodes.
#[verifier::external_body]
pub(crate) fn node_count(g: &PetGraph) -> (r: usize)
    ensures
        r as int == graph_nodes(*g).len(),
{
    g.node_count()
}

/// Relies on petgraph's `Graph::add_node`: the weight is appended and its
/// index is the former node count (no limit with `usize` indices).
#[verifier::external_body]
pub(crate) fn add_node(g: &mut PetGraph, w: (i32, i32, i32)) -> (r: usize)
    ensures
        graph_nodes(*final(g)) == graph_nodes(*old(g)).push(w),
        graph_edges(*final(g)) == graph_edges(*old(g)),
        r as int == graph_nodes(*old(g)).len(),
{
    g.add_node(w).index()
}

/// Relies on petgraph's `Graph::add_edge`: the edge is appended; it panics
/// on an endpoint that is not a node, which `requires` leaves out.
#[verifier::external_body]
pub(crate) fn add_edge(g: &mut PetGraph, a: usize, b: usize, w: u64)
    requires
        a < graph_nodes(*old(g)).len(),
        b < graph_nodes(*old(g)).len(),
    ensures
        graph_nodes(*final(g)) == graph_nodes(*old(g)),
        graph_edges(*final(g)) == graph_edges(*old(g)).push((a as int, b as int, w)),
{
    g.add_edge(NodeIndex::new(a), NodeIndex::new(b), w);
}

/// Relies on petgraph's `Graph::node_weight`: the weight of node `a`, or
/// `None` where there is no such node.
#[verifier::external_body]
pub(crate) fn node_weight(g: &PetGraph, a: usize) -> (r: Option<(i32, i32, i32)>)
    ensures
        a < graph_nodes(*g).len() ==> r == Some(graph_nodes(*g)[a as int]),
        a >= graph_nodes(*g).len() ==> r is None,
{
    g.node_weight(NodeIndex::new(a)).copied()
}

/// Relies on petgraph's `Graph::edges` on an undirected graph: every edge
/// that touches `a`, each given as (the other endpoint, its weight).
#[verifier::external_body]
pub(crate) fn incident_edges(g: &PetGraph, a: usize) -> (r: Vec<(usize, u64)>)
    ensures
        forall|i: int|
            0 <= i < r@.len() ==> has_edge(
                graph_edges(*g),
                a as int,
                #[trigger] r@[i].0 as int,
                r@[i].1,
            ),
        forall|k: int|
            0 <= k < graph_edges(*g).len() && graph_edges(*g)[k].0 == a ==> exists|i: int|
                0 <= i < r@.len() && r@[i].0 as int == #[trigger] graph_edges(*g)[k].1
                    && r@[i].1 == graph_edges(*g)[k].2,
        forall|k: int|
            0 <= k < graph_edges(*g).len() && graph_edges(*g)[k].1 == a ==> exists|i: int|
                0 <= i < r@.len() && r@[i].0 as int == #[trigger] graph_edges(*g)[k].0
                    && r@[i].1 == graph_edges(*g)[k].2,
{
    g.edges(NodeIndex::new(a)).map(|e| (e.target().index(), *e.weight())).collect()
}

} // verus!
