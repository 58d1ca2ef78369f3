//! The waypoint graph: positions by handle and undirected costed edges,
//! with routes and reachability over its edge list.
use vstd::prelude::*;
use crate::geometry::Coords;
use crate::graph_store::{
    PetGraph, graph_nodes, graph_edges, has_edge, edge_joins, new_graph, node_count,
    add_node, add_edge, node_weight, incident_edges,
};

verus! {

pub open spec fn coords_of(p: (i32, i32, i32)) -> Coords {
    Coords { x: p.0, y: p.1, z: p.2 }
}

/// Edge `e` connects `a` and `b`, in either direction.
pub open spec fn connects(e: (int, int, u64), a: int, b: int) -> bool {
    (e.0 == a && e.1 == b) || (e.0 == b && e.1 == a)
}

/// Some edge of `es` connects `a` and `b`.
pub open spec fn adjacent(es: Seq<(int, int, u64)>, a: int, b: int) -> bool {
    exists|k: int| 0 <= k < es.len() && #[trigger] connects(es[k], a, b)
}

/// Edge `e` has `a` as one of its ends.
pub open spec fn touches(e: (int, int, u64), a: int) -> bool {
    e.0 == a || e.1 == a
}

/// The end of `e` other than `a` (`a` itself for a loop).
pub open spec fn other_end(e: (int, int, u64), a: int) -> int {
    if e.0 == a {
        e.1
    } else {
        e.0
    }
}

/// `w` is a sequence of waypoints from `s` to `t`, and `ks` the indices of
/// the edges of `es` that join each waypoint of `w` to the next.
pub open spec fn is_route(es: Seq<(int, int, u64)>, w: Seq<int>, ks: Seq<int>, s: int, t: int) -> bool {
    &&& w.len() == ks.len() + 1
    &&& w[0] == s
    &&& w[w.len() - 1] == t
    &&& forall|i: int|
        0 <= i < ks.len() ==> 0 <= #[trigger] ks[i] < es.len() && connects(es[ks[i]], w[i], w[i + 1])
}

/// The total cost of the edges `ks`.
pub open spec fn route_cost(es: Seq<(int, int, u64)>, ks: Seq<int>) -> nat
    decreases ks.len(),
{
    if ks.len() == 0 {
        0
    } else {
        es[ks[0]].2 as nat + route_cost(es, ks.skip(1))
    }
}

pub proof fn lemma_route_cost_split(es: Seq<(int, int, u64)>, ks: Seq<int>, i: int)
    requires
        0 <= i <= ks.len(),
    ensures
        route_cost(es, ks) == route_cost(es, ks.take(i)) + route_cost(es, ks.skip(i)),
    decreases i,
{
    if i == 0 {
        assert(ks.skip(0) =~= ks);
        assert(ks.take(0).len() == 0);
    } else {
        lemma_route_cost_split(es, ks.skip(1), i - 1);
        assert(ks.skip(1).skip(i - 1) =~= ks.skip(i));
        assert(ks.take(i).skip(1) =~= ks.skip(1).take(i - 1));
        assert(ks.take(i)[0] == ks[0]);
    }
}

/// Taking one more edge adds its cost.
pub proof fn lemma_route_cost_step(es: Seq<(int, int, u64)>, ks: Seq<int>, i: int)
    requires
        0 <= i < ks.len(),
    ensures
        route_cost(es, ks.take(i + 1)) == route_cost(es, ks.take(i)) + es[ks[i]].2,
{
    lemma_route_cost_split(es, ks.take(i + 1), i);
    assert(ks.take(i + 1).take(i) =~= ks.take(i));
    let last = ks.take(i + 1).skip(i);
    assert(last.len() == 1 && last[0] == ks[i]);
    assert(last.skip(1).len() == 0);
    assert(route_cost(es, last.skip(1)) == 0);
    assert(route_cost(es, last) == es[last[0]].2 as nat + route_cost(es, last.skip(1)));
}

/// The part of a route from its `i`-th waypoint on.
pub proof fn lemma_route_suffix(es: Seq<(int, int, u64)>, w: Seq<int>, ks: Seq<int>, s: int, t: int, i: int)
    requires
        is_route(es, w, ks, s, t),
        0 <= i <= ks.len(),
    ensures
        is_route(es, w.skip(i), ks.skip(i), w[i], t),
        route_cost(es, ks) == route_cost(es, ks.take(i)) + route_cost(es, ks.skip(i)),
{
    lemma_route_cost_split(es, ks, i);
    assert forall|j: int| 0 <= j < ks.skip(i).len() implies 0 <= #[trigger] ks.skip(i)[j] < es.len()
        && connects(es[ks.skip(i)[j]], w.skip(i)[j], w.skip(i)[j + 1]) by {
        assert(ks.skip(i)[j] == ks[i + j]);
        assert(0 <= ks[i + j] < es.len());
    }
}

pub open spec fn reachable(es: Seq<(int, int, u64)>, s: int, t: int) -> bool {
    exists|w: Seq<int>, ks: Seq<int>| is_route(es, w, ks, s, t)
}

/// Every edge joins two of the `n` waypoints and has a positive cost.
pub open spec fn edges_well_formed(n: int, es: Seq<(int, int, u64)>) -> bool {
    forall|k: int|
        0 <= k < es.len() ==> 0 <= (#[trigger] es[k]).0 < n && 0 <= es[k].1 < n && es[k].2 > 0
}

/// A set of waypoints that holds `s` and every neighbour of its members
/// holds every waypoint reachable from `s`.
pub proof fn lemma_closed_set_holds_reachable(
    es: Seq<(int, int, u64)>,
    member: spec_fn(int) -> bool,
    s: int,
    t: int,
)
    requires
        member(s),
        forall|a: int, b: int| member(a) && #[trigger] adjacent(es, a, b) ==> member(b),
        reachable(es, s, t),
    ensures
        member(t),
{
    let (w, ks) = choose|w: Seq<int>, ks: Seq<int>| is_route(es, w, ks, s, t);
    lemma_route_stays_in_closed_set(es, member, w, ks, s, t, w.len() - 1);
}

proof fn lemma_route_stays_in_closed_set(
    es: Seq<(int, int, u64)>,
    member: spec_fn(int) -> bool,
    w: Seq<int>,
    ks: Seq<int>,
    s: int,
    t: int,
    i: int,
)
    requires
        member(s),
        forall|a: int, b: int| member(a) && #[trigger] adjacent(es, a, b) ==> member(b),
        is_route(es, w, ks, s, t),
        0 <= i < w.len(),
    ensures
        member(w[i]),
    decreases i,
{
    if i > 0 {
        lemma_route_stays_in_closed_set(es, member, w, ks, s, t, i - 1);
        let k = ks[i - 1];
        assert(connects(es[k], w[i - 1], w[i]));
        assert(adjacent(es, w[i - 1], w[i]));
    }
}

/// A building's waypoint graph: each waypoint has a position, each edge is
/// undirected with a positive traversal cost.
pub struct NavGraph {
    g: PetGraph,
}

impl NavGraph {
    /// Positions by waypoint handle.
    pub closed spec fn positions(&self) -> Seq<Coords> {
        graph_nodes(self.g).map_values(|p: (i32, i32, i32)| coords_of(p))
    }

    /// The edges in the order they were added: `(handle, handle, cost)`.
    pub closed spec fn edges(&self) -> Seq<(int, int, u64)> {
        graph_edges(self.g)
    }

    /// Holds of every graph that the methods below build.
    pub open spec fn well_formed(&self) -> bool {
        edges_well_formed(self.positions().len() as int, self.edges())
    }

    /// A graph with no waypoint.
    pub fn new() -> (r: NavGraph)
        ensures
            r.positions() == Seq::<Coords>::empty(),
            r.edges() == Seq::<(int, int, u64)>::empty(),
            r.well_formed(),
    {
        let g = new_graph();
        let r = NavGraph { g };
        assert(r.positions() =~= Seq::<Coords>::empty());
        r
    }

    pub fn node_count(&self) -> (r: usize)
        ensures
            r == self.positions().len(),
    {
        node_count(&self.g)
    }

    /// Adds a waypoint at `c`; its handle is the former waypoint count.
    pub fn add_waypoint(&mut self, c: Coords) -> (r: usize)
        requires
            old(self).well_formed(),
        ensures
            final(self).well_formed(),
            final(self).positions() == old(self).positions().push(c),
            final(self).edges() == old(self).edges(),
            r == old(self).positions().len(),
    {
        let r = add_node(&mut self.g, (c.x, c.y, c.z));
        assert(self.positions() =~= old(self).positions().push(c));
        r
    }

    /// Adds an undirected edge between two waypoints.
    pub fn add_connection(&mut self, a: usize, b: usize, cost: u64)
        requires
            a < old(self).positions().len(),
            b < old(self).positions().len(),
            cost > 0,
            old(self).well_formed(),
        ensures
            final(self).well_formed(),
            final(self).positions() == old(self).positions(),
            final(self).edges() == old(self).edges().push((a as int, b as int, cost)),
    {
        add_edge(&mut self.g, a, b, cost);
        assert(self.positions() =~= old(self).positions());
    }

    /// The position of waypoint `a`, or `None` where there is no such waypoint.
    pub fn position(&self, a: usize) -> (r: Option<Coords>)
        ensures
            a < self.positions().len() ==> r == Some(self.positions()[a as int]),
            a >= self.positions().len() ==> r is None,
    {
        match node_weight(&self.g, a) {
            Some(p) => Some(Coords { x: p.0, y: p.1, z: p.2 }),
            None => None,
        }
    }

    /// The waypoints joined to `a` by an edge, each with that edge's cost:
    /// every entry is such an edge, and every neighbour of `a` has one.
    pub fn neighbours(&self, a: usize) -> (r: Vec<(usize, u64)>)
        ensures
            forall|i: int|
                0 <= i < r@.len() ==> has_edge(self.edges(), a as int, #[trigger] r@[i].0 as int, r@[i].1),
            forall|b: int|
                #[trigger] adjacent(self.edges(), a as int, b) ==> exists|i: int|
                    0 <= i < r@.len() && r@[i].0 as int == b,
            forall|k: int|
                0 <= k < self.edges().len() && #[trigger] touches(self.edges()[k], a as int) ==> exists|i: int|
                    0 <= i < r@.len() && r@[i].0 as int == other_end(self.edges()[k], a as int)
                        && r@[i].1 == self.edges()[k].2,
    {
        let r = incident_edges(&self.g, a);
        assert forall|b: int| #[trigger] adjacent(self.edges(), a as int, b) implies exists|i: int|
            0 <= i < r@.len() && r@[i].0 as int == b by {
            let k = choose|k: int| 0 <= k < self.edges().len() && connects(self.edges()[k], a as int, b);
            if self.edges()[k].0 == a as int {
                assert(graph_edges(self.g)[k].1 == b);
            } else {
                assert(graph_edges(self.g)[k].0 == b);
            }
        }
        assert forall|k: int|
            0 <= k < self.edges().len() && #[trigger] touches(self.edges()[k], a as int) implies exists|i: int|
                0 <= i < r@.len() && r@[i].0 as int == other_end(self.edges()[k], a as int)
                    && r@[i].1 == self.edges()[k].2 by {
            if self.edges()[k].0 == a as int {
                assert(graph_edges(self.g)[k].0 == a);
            } else {
                assert(graph_edges(self.g)[k].1 == a);
            }
        }
        r
    }
}

} // verus!
