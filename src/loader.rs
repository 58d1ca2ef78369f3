//! Builds the waypoint graph and the room index from waypoint records.
use vstd::prelude::*;
use crate::geometry::Coords;
use crate::graph::{NavGraph, connects, adjacent};
use crate::graph_store::{has_edge, edge_joins};
use crate::rooms::RoomIndex;

verus! {

/// One adjacency entry of a waypoint record: the other waypoint's id and
/// the cost of walking there.
#[derive(Debug, Clone, Copy, PartialEq, Eq, Structural)]
pub struct Adj {
    pub target: u64,
    pub cost: u64,
}

/// A waypoint as the document describes it.
#[derive(Debug)]
pub struct NodeRecord {
    pub id: u64,
    pub coordinates: Coords,
    pub room_names: Vec<String>,
    pub connections: Vec<Adj>,
}

#[derive(Debug, Clone, Copy, PartialEq, Eq, Structural)]
pub enum LoadError {
    /// The document could not be read.
    IoFailure,
    /// The document does not describe a graph: a field is missing or has
    /// the wrong type, two waypoints share an id, an adjacency names an
    /// unknown id, or a cost is not positive.
    MalformedInput,
}

pub open spec fn ids_unique(recs: Seq<NodeRecord>) -> bool {
    forall|i: int, j: int|
        0 <= i < recs.len() && 0 <= j < recs.len() && i != j ==> (#[trigger] recs[i]).id != (
        #[trigger] recs[j]).id
}

pub open spec fn id_known(recs: Seq<NodeRecord>, id: u64) -> bool {
    exists|i: int| 0 <= i < recs.len() && (#[trigger] recs[i]).id == id
}

/// The handle of the waypoint with this id: its position in the records.
pub open spec fn handle_of(recs: Seq<NodeRecord>, id: u64) -> int {
    choose|i: int| 0 <= i < recs.len() && (#[trigger] recs[i]).id == id
}

/// Every adjacency entry names a known waypoint and has a positive cost.
pub open spec fn entries_valid(recs: Seq<NodeRecord>) -> bool {
    forall|i: int, j: int|
        0 <= i < recs.len() && 0 <= j < recs[i].connections@.len() ==> id_known(
            recs,
            (#[trigger] recs[i].connections@[j]).target,
        ) && recs[i].connections@[j].cost > 0
}

pub open spec fn document_ok(recs: Seq<NodeRecord>) -> bool {
    ids_unique(recs) && entries_valid(recs)
}


/// The record lists the waypoint with id `id` among its connections.
pub open spec fn lists(rec: NodeRecord, id: u64) -> bool {
    exists|j: int| 0 <= j < rec.connections@.len() && (#[trigger] rec.connections@[j]).target == id
}

/// Waypoints `a` and `b` are two different waypoints, and at least one of
/// them lists the other.
pub open spec fn listed(recs: Seq<NodeRecord>, a: int, b: int) -> bool {
    a != b && (lists(recs[a], recs[b].id) || lists(recs[b], recs[a].id))
}

/// The cost of the first entry of `conns` that names `id`.
pub open spec fn first_listing(conns: Seq<Adj>, id: u64) -> Option<u64>
    decreases conns.len(),
{
    if conns.len() == 0 {
        None
    } else if conns[0].target == id {
        Some(conns[0].cost)
    } else {
        first_listing(conns.skip(1), id)
    }
}

/// The cost of the edge between waypoints `a` and `b`: the cost that the
/// one with the lower id lists first for the other, or, where it does not
/// list the other, the cost that the higher one lists first.
pub open spec fn pair_cost(recs: Seq<NodeRecord>, a: int, b: int) -> u64 {
    let lo = if recs[a].id < recs[b].id { a } else { b };
    let hi = if recs[a].id < recs[b].id { b } else { a };
    match first_listing(recs[lo].connections@, recs[hi].id) {
        Some(c) => c,
        None => match first_listing(recs[hi].connections@, recs[lo].id) {
            Some(c) => c,
            None => 0,
        },
    }
}

/// The number of edges of `es` that connect `a` and `b`.
pub open spec fn edges_between(es: Seq<(int, int, u64)>, a: int, b: int) -> nat
    decreases es.len(),
{
    if es.len() == 0 {
        0
    } else {
        edges_between(es.drop_last(), a, b) + if connects(es.last(), a, b) {
            1nat
        } else {
            0nat
        }
    }
}

/// No pair has two edges, and each edge joins a listed pair with its cost.
spec fn edges_ok(recs: Seq<NodeRecord>, es: Seq<(int, int, u64)>) -> bool {
    &&& forall|a: int, b: int| #[trigger] edges_between(es, a, b) <= 1
    &&& forall|k: int|
        0 <= k < es.len() ==> (#[trigger] es[k]).0 != es[k].1 && listed(recs, es[k].0, es[k].1)
            && es[k].2 == pair_cost(recs, es[k].0, es[k].1)
}

/// The room index after the names of `names` are pointed at `h`, in order.
pub open spec fn with_names(m: Map<Seq<char>, usize>, names: Seq<String>, h: usize) -> Map<
    Seq<char>,
    usize,
>
    decreases names.len(),
{
    if names.len() == 0 {
        m
    } else {
        with_names(m, names.drop_last(), h).insert(names.last()@, h)
    }
}

/// The room index of the first `n` records: each alias points at its
/// waypoint; where two waypoints share an alias, the later one wins.
pub open spec fn document_rooms(recs: Seq<NodeRecord>, n: int) -> Map<Seq<char>, usize>
    decreases n,
{
    if n <= 0 {
        Map::empty()
    } else {
        with_names(document_rooms(recs, n - 1), recs[n - 1].room_names@, (n - 1) as usize)
    }
}

pub open spec fn record_positions(recs: Seq<NodeRecord>) -> Seq<Coords> {
    recs.map_values(|r: NodeRecord| r.coordinates)
}

/// The index of `id` in `ids`, if it is there.
fn position_of(ids: &Vec<u64>, id: u64) -> (r: Option<usize>)
    ensures
        r matches Some(i) ==> i < ids@.len() && ids@[i as int] == id,
        r is None ==> forall|j: int| 0 <= j < ids@.len() ==> ids@[j] != id,
{
    let mut i: usize = 0;
    while i < ids.len()
        invariant
            0 <= i <= ids@.len(),
            forall|j: int| 0 <= j < i ==> ids@[j] != id,
        decreases ids@.len() - i,
    {
        if ids[i] == id {
            return Some(i);
        }
        i = i + 1;
    }
    None
}

proof fn lemma_first_listing(conns: Seq<Adj>, id: u64)
    ensures
        (first_listing(conns, id) is Some) == (exists|j: int|
            0 <= j < conns.len() && (#[trigger] conns[j]).target == id),
        first_listing(conns, id) matches Some(c) ==> exists|j: int|
            0 <= j < conns.len() && (#[trigger] conns[j]).target == id && conns[j].cost == c,
    decreases conns.len(),
{
    if conns.len() > 0 {
        lemma_first_listing(conns.skip(1), id);
        if conns[0].target != id {
            if exists|j: int| 0 <= j < conns.len() && (#[trigger] conns[j]).target == id {
                let j = choose|j: int| 0 <= j < conns.len() && (#[trigger] conns[j]).target == id;
                assert(conns.skip(1)[j - 1] == conns[j]);
            }
            if first_listing(conns, id) is Some {
                let j = choose|j: int|
                    0 <= j < conns.skip(1).len() && (#[trigger] conns.skip(1)[j]).target == id
                        && conns.skip(1)[j].cost == first_listing(conns, id).unwrap();
                assert(conns[j + 1] == conns.skip(1)[j]);
            }
        }
    }
}

proof fn lemma_edges_between_symmetric(es: Seq<(int, int, u64)>, a: int, b: int)
    ensures
        edges_between(es, a, b) == edges_between(es, b, a),
    decreases es.len(),
{
    if es.len() > 0 {
        lemma_edges_between_symmetric(es.drop_last(), a, b);
    }
}

/// Edges are counted between `a` and `b` exactly when one connects them.
proof fn lemma_edges_between_positive(es: Seq<(int, int, u64)>, a: int, b: int)
    ensures
        (edges_between(es, a, b) > 0) == adjacent(es, a, b),
    decreases es.len(),
{
    if es.len() > 0 {
        let prev = es.drop_last();
        lemma_edges_between_positive(prev, a, b);
        if adjacent(prev, a, b) {
            let k = choose|k: int| 0 <= k < prev.len() && #[trigger] connects(prev[k], a, b);
            assert(connects(es[k], a, b));
        }
        if connects(es.last(), a, b) {
            assert(connects(es[es.len() - 1], a, b));
        }
        if adjacent(es, a, b) && !connects(es.last(), a, b) {
            let k = choose|k: int| 0 <= k < es.len() && #[trigger] connects(es[k], a, b);
            assert(k < es.len() - 1);
            assert(connects(prev[k], a, b));
        }
    }
}

/// The cost of the first entry of `conns` that names `id`.
fn first_cost(conns: &Vec<Adj>, id: u64) -> (r: Option<u64>)
    ensures
        r == first_listing(conns@, id),
{
    let mut j: usize = 0;
    assert(conns@.skip(0) =~= conns@);
    while j < conns.len()
        invariant
            0 <= j <= conns@.len(),
            first_listing(conns@, id) == first_listing(conns@.skip(j as int), id),
        decreases conns@.len() - j,
    {
        assert(conns@.skip(j as int)[0] == conns@[j as int]);
        if conns[j].target == id {
            return Some(conns[j].cost);
        }
        assert(conns@.skip(j as int).skip(1) =~= conns@.skip(j + 1));
        j = j + 1;
    }
    assert(conns@.skip(j as int).len() == 0);
    None
}

/// Some entry of `nb` is for waypoint `x`.
fn has_neighbour(nb: &Vec<(usize, u64)>, x: usize) -> (r: bool)
    ensures
        r == exists|i: int| 0 <= i < nb@.len() && (#[trigger] nb@[i]).0 == x,
{
    let mut i: usize = 0;
    while i < nb.len()
        invariant
            0 <= i <= nb@.len(),
            forall|j: int| 0 <= j < i ==> (#[trigger] nb@[j]).0 != x,
        decreases nb@.len() - i,
    {
        if nb[i].0 == x {
            return true;
        }
        i = i + 1;
    }
    false
}

/// Builds the graph and the room index from the document's records.
///
/// Each record becomes a waypoint whose handle is its position in `nodes`,
/// and each of its names points at it (a name given to two waypoints
/// points at the later one). Every pair of different waypoints of which at
/// least one lists the other gets exactly one edge, whichever end lists it
/// and however often. Its cost is the one the lower id lists first; where
/// the lower id does not list the pair, the one the higher id lists first.
/// Entries that name their own waypoint give no edge.
/// Edges are added only after every record has been read and checked:
/// on a duplicate id, an entry naming an unknown id, or a zero cost, the
/// result is `MalformedInput` and no graph is returned.
#[verifier::loop_isolation(false)]
#[verifier::rlimit(40)]
pub fn create_graph_from_json(nodes: &Vec<NodeRecord>) -> (r: Result<
    (NavGraph, RoomIndex),
    LoadError,
>)
    ensures
        r is Err <==> !document_ok(nodes@),
        r is Err ==> r == Err::<(NavGraph, RoomIndex), LoadError>(LoadError::MalformedInput),
        r matches Ok((g, rooms)) ==> {
            &&& g.well_formed()
            &&& g.positions() == record_positions(nodes@)
            &&& rooms@ == document_rooms(nodes@, nodes@.len() as int)
            &&& forall|a: int, b: int|
                0 <= a < nodes@.len() && 0 <= b < nodes@.len() ==> #[trigger] edges_between(
                    g.edges(),
                    a,
                    b,
                ) == (if listed(nodes@, a, b) {
                    1nat
                } else {
                    0nat
                })
            &&& forall|k: int|
                0 <= k < g.edges().len() ==> (#[trigger] g.edges()[k]).2 == pair_cost(
                    nodes@,
                    g.edges()[k].0,
                    g.edges()[k].1,
                )
        },
{
    let ghost recs = nodes@;
    let mut graph = NavGraph::new();
    let mut rooms = RoomIndex::new();
    let mut ids: Vec<u64> = Vec::new();
    let mut i: usize = 0;
    while i < nodes.len()
        invariant
            0 <= i <= recs.len(),
            graph.well_formed(),
            graph.positions() == record_positions(recs.take(i as int)),
            graph.edges() == Seq::<(int, int, u64)>::empty(),
            ids@ == recs.take(i as int).map_values(|r: NodeRecord| r.id),
            ids_unique(recs.take(i as int)),
            rooms@ == document_rooms(recs, i as int),
        decreases recs.len() - i,
    {
        let rec = &nodes[i];
        match position_of(&ids, rec.id) {
            Some(p) => {
                proof {
                    assert(recs.take(i as int)[p as int] == recs[p as int]);
                    assert(recs[p as int].id == recs[i as int].id);
                }
                return Err(LoadError::MalformedInput);
            },
            None => {},
        }
        let h = graph.add_waypoint(rec.coordinates);
        ids.push(rec.id);
        let mut j: usize = 0;
        while j < rec.room_names.len()
            invariant
                0 <= j <= rec.room_names@.len(),
                rooms@ == with_names(document_rooms(recs, i as int), rec.room_names@.take(j as int), h),
            decreases rec.room_names@.len() - j,
        {
            rooms.insert(rec.room_names[j].clone(), h);
            assert(rec.room_names@.take(j + 1).drop_last() =~= rec.room_names@.take(j as int));
            j = j + 1;
        }
        assert(rec.room_names@.take(j as int) =~= rec.room_names@);
        proof {
            assert(recs.take(i + 1) =~= recs.take(i as int).push(recs[i as int]));
            assert(ids@ =~= recs.take(i + 1).map_values(|r: NodeRecord| r.id));
            assert(graph.positions() =~= record_positions(recs.take(i + 1)));
            assert forall|a: int, b: int|
                0 <= a < i + 1 && 0 <= b < i + 1 && a != b implies (
                #[trigger] recs.take(i + 1)[a]).id != (#[trigger] recs.take(i + 1)[b]).id by {
                if a < i && b < i {
                    assert(recs.take(i as int)[a] == recs[a]);
                    assert(recs.take(i as int)[b] == recs[b]);
                } else if a < i {
                    assert(ids@[a] == recs[a].id);
                } else {
                    assert(ids@[b] == recs[b].id);
                }
            }
        }
        i = i + 1;
    }
    proof {
        assert(recs.take(recs.len() as int) =~= recs);
    }
    let mut i: usize = 0;
    while i < nodes.len()
        invariant
            0 <= i <= recs.len(),
            forall|a: int, b: int|
                0 <= a < i && 0 <= b < recs[a].connections@.len() ==> id_known(
                    recs,
                    (#[trigger] recs[a].connections@[b]).target,
                ) && recs[a].connections@[b].cost > 0,
        decreases recs.len() - i,
    {
        let rec = &nodes[i];
        let mut j: usize = 0;
        while j < rec.connections.len()
            invariant
                0 <= j <= rec.connections@.len(),
                forall|b: int|
                    0 <= b < j ==> id_known(recs, (#[trigger] rec.connections@[b]).target)
                        && rec.connections@[b].cost > 0,
            decreases rec.connections@.len() - j,
        {
            let a = rec.connections[j];
            match position_of(&ids, a.target) {
                None => {
                    proof {
                        assert forall|p: int| 0 <= p < recs.len() implies (#[trigger] recs[p]).id != a.target by {
                            assert(ids@[p] == recs[p].id);
                        }
                    }
                    return Err(LoadError::MalformedInput);
                },
                Some(p) => {
                    assert(ids@[p as int] == recs[p as int].id);
                    if a.cost == 0 {
                        return Err(LoadError::MalformedInput);
                    }
                },
            }
            j = j + 1;
        }
        i = i + 1;
    }
    let mut i: usize = 0;
    while i < nodes.len()
        invariant
            0 <= i <= recs.len(),
            graph.well_formed(),
            graph.positions() == record_positions(recs),
            edges_ok(recs, graph.edges()),
            forall|a: int, b: int|
                0 <= a < i && 0 <= b < recs[a].connections@.len() ==> handle_of(
                    recs,
                    (#[trigger] recs[a].connections@[b]).target,
                ) == a || edges_between(
                    graph.edges(),
                    a,
                    handle_of(recs, recs[a].connections@[b].target),
                ) == 1,
        decreases recs.len() - i,
    {
        let rec = &nodes[i];
        let mut j: usize = 0;
        while j < rec.connections.len()
            invariant
                0 <= j <= rec.connections@.len(),
                graph.well_formed(),
                graph.positions() == record_positions(recs),
                edges_ok(recs, graph.edges()),
                forall|a: int, b: int|
                    0 <= a < i && 0 <= b < recs[a].connections@.len() ==> handle_of(
                        recs,
                        (#[trigger] recs[a].connections@[b]).target,
                    ) == a || edges_between(
                        graph.edges(),
                        a,
                        handle_of(recs, recs[a].connections@[b].target),
                    ) == 1,
                forall|b: int|
                    0 <= b < j ==> handle_of(recs, (#[trigger] rec.connections@[b]).target) == i
                        || edges_between(graph.edges(), i as int, handle_of(recs, rec.connections@[b].target))
                        == 1,
            decreases rec.connections@.len() - j,
        {
            let t = rec.connections[j].target;
            let th = position_of(&ids, t);
            proof {
                assert(id_known(recs, recs[i as int].connections@[j as int].target));
                let q = choose|q: int| 0 <= q < recs.len() && (#[trigger] recs[q]).id == t;
                assert(ids@[q] == recs[q].id);
            }
            let th = th.unwrap();
            proof {
                assert(ids@[th as int] == recs[th as int].id);
                assert(handle_of(recs, t) == th as int);
                assert(lists(recs[i as int], t)) by {
                    assert(recs[i as int].connections@[j as int].target == t);
                }
            }
            let ghost old_edges = graph.edges();
            if th != i {
                let nb = graph.neighbours(i);
                let known = has_neighbour(&nb, th);
                proof {
                    lemma_edges_between_positive(old_edges, i as int, th as int);
                    lemma_edges_between_symmetric(old_edges, i as int, th as int);
                    if known {
                        let x = choose|x: int| 0 <= x < nb@.len() && (#[trigger] nb@[x]).0 == th;
                        assert(has_edge(old_edges, i as int, nb@[x].0 as int, nb@[x].1));
                        let k = choose|k: int| 0 <= k < old_edges.len() && #[trigger] edge_joins(old_edges[k], i as int, th as int, nb@[x].1);
                        assert(connects(old_edges[k], i as int, th as int));
                        assert(edges_between(old_edges, i as int, th as int) <= 1);
                    } else {
                        assert(!adjacent(old_edges, i as int, th as int));
                    }
                }
                if !known {
                    let lower = rec.id < t;
                    let lo = if lower { i } else { th };
                    let hi = if lower { th } else { i };
                    proof {
                        assert(recs[i as int].id != t);
                        lemma_first_listing(recs[lo as int].connections@, recs[hi as int].id);
                        lemma_first_listing(recs[hi as int].connections@, recs[lo as int].id);
                        if !lower {
                            assert(recs[hi as int].connections@[j as int].target == recs[lo as int].id);
                        } else {
                            assert(recs[lo as int].connections@[j as int].target == recs[hi as int].id);
                        }
                    }
                    let c = match first_cost(&nodes[lo].connections, nodes[hi].id) {
                        Some(c) => c,
                        None => first_cost(&nodes[hi].connections, nodes[lo].id).unwrap(),
                    };
                    proof {
                        assert(c == pair_cost(recs, lo as int, hi as int));
                        if first_listing(recs[lo as int].connections@, recs[hi as int].id) is Some {
                            let q = choose|q: int|
                                0 <= q < recs[lo as int].connections@.len() && (
                                #[trigger] recs[lo as int].connections@[q]).target == recs[hi as int].id
                                    && recs[lo as int].connections@[q].cost == c;
                            assert(recs[lo as int].connections@[q].cost > 0);
                        } else {
                            let q = choose|q: int|
                                0 <= q < recs[hi as int].connections@.len() && (
                                #[trigger] recs[hi as int].connections@[q]).target == recs[lo as int].id
                                    && recs[hi as int].connections@[q].cost == c;
                            assert(recs[hi as int].connections@[q].cost > 0);
                        }
                    }
                    graph.add_connection(lo, hi, c);
                    proof {
                        let es = graph.edges();
                        let e = (lo as int, hi as int, c);
                        assert(es.drop_last() =~= old_edges);
                        assert(es.last() == e);
                        assert forall|a: int, b: int| #[trigger] edges_between(es, a, b) == edges_between(old_edges, a, b)
                            + if connects(e, a, b) { 1nat } else { 0nat } by {}
                        assert forall|a: int, b: int| #[trigger] edges_between(es, a, b) <= 1 by {
                            assert(edges_between(old_edges, a, b) <= 1);
                            if connects(e, a, b) {
                                lemma_edges_between_symmetric(old_edges, a, b);
                            }
                        }
                        assert forall|k: int| 0 <= k < es.len() implies (#[trigger] es[k]).0 != es[k].1
                            && listed(recs, es[k].0, es[k].1) && es[k].2 == pair_cost(recs, es[k].0, es[k].1) by {
                            if k < old_edges.len() {
                                assert(es[k] == old_edges[k]);
                            }
                        }
                        assert(edges_between(es, i as int, th as int) == 1);
                    }
                }
            }
            proof {
                let es = graph.edges();
                assert forall|a: int, b: int|
                    0 <= a < i && 0 <= b < recs[a].connections@.len() && handle_of(
                        recs,
                        (#[trigger] recs[a].connections@[b]).target,
                    ) != a implies edges_between(
                        es,
                        a,
                        handle_of(recs, recs[a].connections@[b].target),
                    ) == 1 by {
                    let h = handle_of(recs, recs[a].connections@[b].target);
                    assert(edges_between(old_edges, a, h) == 1);
                    assert(edges_between(es, a, h) <= 1);
                    if es.len() > old_edges.len() {
                        assert(es.drop_last() =~= old_edges);
                    } else {
                        assert(es =~= old_edges);
                    }
                }
                assert forall|b: int|
                    0 <= b < j + 1 && handle_of(recs, (#[trigger] rec.connections@[b]).target) != i implies
                        edges_between(es, i as int, handle_of(recs, rec.connections@[b].target)) == 1 by {
                    if b < j {
                        let h = handle_of(recs, rec.connections@[b].target);
                        assert(edges_between(old_edges, i as int, h) == 1);
                        assert(edges_between(es, i as int, h) <= 1);
                        if es.len() > old_edges.len() {
                            assert(es.drop_last() =~= old_edges);
                        } else {
                            assert(es =~= old_edges);
                        }
                    }
                }
            }
            j = j + 1;
        }
        i = i + 1;
    }
    proof {
        let es = graph.edges();
        assert forall|a: int, b: int| 0 <= a < recs.len() && 0 <= b < recs.len() implies #[trigger] edges_between(
            es,
            a,
            b,
        ) == (if listed(recs, a, b) {
            1nat
        } else {
            0nat
        }) by {
            lemma_edges_between_symmetric(es, a, b);
            lemma_edges_between_positive(es, a, b);
            if listed(recs, a, b) {
                if lists(recs[a], recs[b].id) {
                    let q = choose|q: int| 0 <= q < recs[a].connections@.len() && (#[trigger] recs[a].connections@[q]).target == recs[b].id;
                    assert(handle_of(recs, recs[b].id) == b);
                } else {
                    let q = choose|q: int| 0 <= q < recs[b].connections@.len() && (#[trigger] recs[b].connections@[q]).target == recs[a].id;
                    assert(handle_of(recs, recs[a].id) == a);
                }
            } else if edges_between(es, a, b) > 0 {
                let k = choose|k: int| 0 <= k < es.len() && #[trigger] connects(es[k], a, b);
                assert(listed(recs, es[k].0, es[k].1));
            }
        }
    }
    Ok((graph, rooms))
}

proof fn lemma_with_names_bounded(m: Map<Seq<char>, usize>, names: Seq<String>, h: usize, n: int)
    requires
        h < n,
        forall|k: Seq<char>| #[trigger] m.contains_key(k) ==> m[k] < n,
    ensures
        forall|k: Seq<char>| #[trigger] with_names(m, names, h).contains_key(k) ==> with_names(m, names, h)[k] < n,
    decreases names.len(),
{
    if names.len() > 0 {
        lemma_with_names_bounded(m, names.drop_last(), h, n);
        let prev = with_names(m, names.drop_last(), h);
        assert(with_names(m, names, h) == prev.insert(names.last()@, h));
        assert forall|k: Seq<char>| #[trigger] with_names(m, names, h).contains_key(k) implies with_names(m, names, h)[k] < n by {
            if k != names.last()@ {
                assert(prev.contains_key(k));
            }
        }
    }
}

proof fn lemma_document_rooms_bounded(recs: Seq<NodeRecord>, n: int)
    requires
        0 <= n <= recs.len(),
    ensures
        forall|k: Seq<char>| #[trigger] document_rooms(recs, n).contains_key(k) ==> document_rooms(recs, n)[k] < n,
    decreases n,
{
    if n > 0 {
        lemma_document_rooms_bounded(recs, n - 1);
        lemma_with_names_bounded(document_rooms(recs, n - 1), recs[n - 1].room_names@, (n - 1) as usize, n);
    }
}

/// Every alias in the room index built from a document points at a
/// waypoint of the graph built from it.
pub proof fn lemma_room_aliases_resolve(recs: Seq<NodeRecord>)
    ensures
        forall|k: Seq<char>|
            #[trigger] document_rooms(recs, recs.len() as int).contains_key(k) ==> document_rooms(
                recs,
                recs.len() as int,
            )[k] < record_positions(recs).len(),
{
    lemma_document_rooms_bounded(recs, recs.len() as int);
}

} // verus!
