//! A* search between two waypoints of a `NavGraph`.
use vstd::prelude::*;
use crate::geometry::{Coords, heuristic};
use crate::graph::{
    NavGraph, adjacent, connects, touches, other_end, is_route, route_cost, reachable,
    lemma_closed_set_holds_reachable, lemma_route_cost_step, lemma_route_suffix, edges_well_formed,
};
use crate::graph_store::{has_edge, edge_joins};
use crate::rooms::RoomIndex;

verus! {

/// A query names a waypoint that the graph does not hold.
#[derive(Debug, Clone, Copy, PartialEq, Eq, Structural)]
pub enum SearchError {
    UnknownWaypoint,
}

/// The positions of the waypoints of a route.
pub open spec fn route_positions(pos: Seq<Coords>, w: Seq<int>) -> Seq<Coords> {
    w.map_values(|i: int| pos[i])
}

/// A best-known cost, where `None` (not reached yet) stands above every
/// cost that a `u64` holds.
pub open spec fn score_value(s: Option<u64>) -> nat {
    match s {
        Some(v) => v as nat,
        None => u64::MAX as nat + 1,
    }
}

pub open spec fn score_total(s: Seq<Option<u64>>) -> nat
    decreases s.len(),
{
    if s.len() == 0 {
        0
    } else {
        score_total(s.drop_last()) + score_value(s.last())
    }
}

proof fn lemma_score_total_update(s: Seq<Option<u64>>, i: int, v: Option<u64>)
    requires
        0 <= i < s.len(),
    ensures
        score_total(s.update(i, v)) + score_value(s[i]) == score_total(s) + score_value(v),
    decreases s.len(),
{
    if i < s.len() - 1 {
        lemma_score_total_update(s.drop_last(), i, v);
        assert(s.update(i, v).drop_last() =~= s.drop_last().update(i, v));
    } else {
        assert(s.update(i, v).drop_last() =~= s.drop_last());
    }
}

pub open spec fn reached(scores: Seq<Option<u64>>, x: int) -> bool {
    0 <= x < scores.len() && scores[x] is Some
}

/// `p` comes before `x` on a chain of predecessors: a lower best cost, or
/// an equal one (both saturated) and reached earlier.
pub open spec fn precedes(scores: Seq<Option<u64>>, rt: Seq<int>, p: int, x: int) -> bool {
    score_value(scores[p]) < score_value(scores[x]) || (score_value(scores[p]) == score_value(
        scores[x],
    ) && rt[p] < rt[x])
}

/// Some edge joins `p` to `x`; unless the cost of `x` is saturated, it is at
/// least the cost of `p` plus that edge's.
pub open spec fn link_ok(es: Seq<(int, int, u64)>, scores: Seq<Option<u64>>, p: int, x: int) -> bool {
    exists|k: int|
        0 <= k < es.len() && #[trigger] connects(es[k], p, x) && (score_value(scores[x]) < u64::MAX
            ==> score_value(scores[x]) >= score_value(scores[p]) + es[k].2)
}

/// Every reached waypoint but the start has a reached predecessor, joined
/// to it by an edge, and earlier on the chain.
pub open spec fn chains_ok(
    es: Seq<(int, int, u64)>,
    start: int,
    scores: Seq<Option<u64>>,
    preds: Seq<Option<usize>>,
    rt: Seq<int>,
) -> bool {
    &&& scores.len() == preds.len()
    &&& scores.len() == rt.len()
    &&& 0 <= start < scores.len()
    &&& scores[start] == Some(0u64)
    &&& preds[start] is None
    &&& forall|x: int| #[trigger] reached(scores, x) ==> rt[x] >= 0
    &&& forall|x: int|
        #[trigger] reached(scores, x) && x != start ==> {
            &&& preds[x] is Some
            &&& reached(scores, preds[x].unwrap() as int)
            &&& link_ok(es, scores, preds[x].unwrap() as int, x)
            &&& precedes(scores, rt, preds[x].unwrap() as int, x)
        }
}

/// Every reached waypoint but the start has a reached predecessor that
/// comes before it on the chain, so that following predecessors ends.
pub open spec fn chain_ordered(
    start: int,
    scores: Seq<Option<u64>>,
    preds: Seq<Option<usize>>,
    rt: Seq<int>,
) -> bool {
    &&& scores.len() == preds.len()
    &&& scores.len() == rt.len()
    &&& 0 <= start < scores.len()
    &&& preds[start] is None
    &&& forall|x: int| #[trigger] reached(scores, x) ==> rt[x] >= 0
    &&& forall|x: int|
        #[trigger] reached(scores, x) && x != start ==> {
            &&& preds[x] is Some
            &&& reached(scores, preds[x].unwrap() as int)
            &&& precedes(scores, rt, preds[x].unwrap() as int, x)
        }
}

/// `w` is the predecessor chain that ends at `goal`, in order from its
/// first waypoint (which has no predecessor) to `goal`.
pub open spec fn is_chain_to(preds: Seq<Option<usize>>, w: Seq<int>, goal: int) -> bool {
    &&& w.len() >= 1
    &&& w[w.len() - 1] == goal
    &&& preds[w[0]] is None
    &&& forall|i: int| 0 <= i < w.len() - 1 ==> preds[#[trigger] w[i + 1]] == Some(w[i] as usize)
}

/// Walks the predecessor chain back from `goal` and returns the positions
/// of its waypoints, reversed: from the start to `goal`.
#[verifier::loop_isolation(false)]
fn reconstruct_path(
    graph: &NavGraph,
    came_from: &Vec<Option<usize>>,
    goal: usize,
    Ghost(start): Ghost<int>,
    Ghost(scores): Ghost<Seq<Option<u64>>>,
    Ghost(rt): Ghost<Seq<int>>,
) -> (path: Vec<Coords>)
    requires
        scores.len() == graph.positions().len(),
        chain_ordered(start, scores, came_from@, rt),
        reached(scores, goal as int),
    ensures
        exists|w: Seq<int>|
            {
                &&& is_chain_to(came_from@, w, goal as int)
                &&& w[0] == start
                &&& path@ == route_positions(graph.positions(), w)
                &&& path@.len() == w.len()
                &&& forall|i: int| 0 <= i < w.len() ==> reached(scores, #[trigger] w[i])
                &&& forall|i: int, j: int|
                    0 <= i < j < w.len() ==> precedes(scores, rt, #[trigger] w[i], #[trigger] w[j])
            },
{
    let mut nodes: Vec<usize> = Vec::new();
    nodes.push(goal);
    let mut cur: usize = goal;
    let ghost mut sw: Seq<int> = seq![goal as int];
    while came_from[cur].is_some()
        invariant
            chain_ordered(start, scores, came_from@, rt),
            reached(scores, cur as int),
            nodes@.len() >= 1,
            sw.len() == nodes@.len(),
            forall|i: int| 0 <= i < sw.len() ==> #[trigger] sw[i] == nodes@[nodes@.len() - 1 - i] as int,
            sw[0] == cur,
            sw[sw.len() - 1] == goal,
            forall|i: int| 0 <= i < sw.len() - 1 ==> came_from@[#[trigger] sw[i + 1]] == Some(sw[i] as usize),
            forall|i: int| 0 <= i < sw.len() ==> reached(scores, #[trigger] sw[i]),
            forall|i: int, j: int|
                0 <= i < j < sw.len() ==> precedes(scores, rt, #[trigger] sw[i], #[trigger] sw[j]),
        decreases score_value(scores[cur as int]), rt[cur as int],
    {
        let p = came_from[cur].unwrap();
        proof {
            let nsw = seq![p as int] + sw;
            assert(came_from@[cur as int] == Some(p));
            assert((p as int) as usize == p);
            assert(precedes(scores, rt, p as int, cur as int));
            assert forall|i: int, j: int|
                0 <= i < j < nsw.len() implies precedes(scores, rt, #[trigger] nsw[i], #[trigger] nsw[j]) by {
                if i == 0 {
                    if j > 1 {
                        assert(precedes(scores, rt, sw[0], sw[j - 1]));
                    }
                } else {
                    assert(nsw[i] == sw[i - 1] && nsw[j] == sw[j - 1]);
                }
            }
            assert forall|i: int| 0 <= i < nsw.len() - 1 implies came_from@[#[trigger] nsw[i + 1]] == Some(nsw[i] as usize) by {
                if i > 0 {
                    assert(nsw[i + 1] == sw[i] && nsw[i] == sw[i - 1]);
                    let i0 = i - 1;
                    assert(came_from@[sw[i0 + 1]] == Some(sw[i0] as usize));
                } else {
                    assert(nsw[0] == p as int && nsw[1] == cur as int);
                }
            }
            sw = nsw;
        }
        nodes.push(p);
        cur = p;
    }
    assert(cur as int == start);
    let ghost len = nodes@.len() as int;
    let ghost w = sw;
    assert forall|i: int| 0 <= i < nodes@.len() implies reached(scores, #[trigger] nodes@[i] as int) by {
        assert(sw[len - 1 - i] == nodes@[i] as int);
    }
    let mut path: Vec<Coords> = Vec::new();
    let mut k: usize = nodes.len();
    while k > 0
        invariant
            0 <= k <= nodes@.len(),
            nodes@.len() == len,
            forall|i: int| 0 <= i < nodes@.len() ==> reached(scores, #[trigger] nodes@[i] as int),
            path@ =~= route_positions(graph.positions(), w.take(len - k)),
        decreases k,
    {
        k = k - 1;
        assert(reached(scores, nodes@[k as int] as int)) by {
            assert(w[len - 1 - k] == nodes@[k as int] as int);
        }
        let c = graph.position(nodes[k]).unwrap();
        path.push(c);
        assert(w[len - 1 - k] == nodes@[k as int] as int);
        assert(w.take(len - k) =~= w.take(len - k - 1).push(nodes@[k as int] as int));
    }
    assert(w.take(len) =~= w);
    assert(is_chain_to(came_from@, w, goal as int));
    path
}

/// The part of a predecessor chain from its `i`-th waypoint on is a route
/// to `goal`; unless the cost of `goal` is saturated, it costs at most the
/// difference of the two waypoints' costs.
#[verifier::rlimit(30)]
proof fn lemma_chain_is_route(
    es: Seq<(int, int, u64)>,
    start: int,
    scores: Seq<Option<u64>>,
    preds: Seq<Option<usize>>,
    rt: Seq<int>,
    w: Seq<int>,
    goal: int,
    i: int,
) -> (ks: Seq<int>)
    requires
        chains_ok(es, start, scores, preds, rt),
        is_chain_to(preds, w, goal),
        w[0] == start,
        forall|j: int| 0 <= j < w.len() ==> reached(scores, #[trigger] w[j]),
        forall|a: int, b: int| 0 <= a < b < w.len() ==> precedes(scores, rt, #[trigger] w[a], #[trigger] w[b]),
        0 <= i < w.len(),
        scores.len() <= usize::MAX,
    ensures
        is_route(es, w.skip(i), ks, w[i], goal),
        score_value(scores[goal]) < u64::MAX ==> score_value(scores[w[i]]) + route_cost(es, ks)
            <= score_value(scores[goal]),
    decreases w.len() - i,
{
    if i == w.len() - 1 {
        let ks = Seq::<int>::empty();
        assert(w.skip(i) =~= seq![goal]);
        ks
    } else {
        let rest = lemma_chain_is_route(es, start, scores, preds, rt, w, goal, i + 1);
        let x = w[i + 1];
        assert(preds[x] == Some(w[i] as usize));
        assert(x != start) by {
            if x == start {
                assert(precedes(scores, rt, w[0], w[i + 1]));
            }
        }
        assert(reached(scores, x));
        assert(reached(scores, w[i]));
        assert(preds[x].unwrap() as int == w[i]);
        assert(link_ok(es, scores, w[i], x));
        let k = choose|k: int|
            0 <= k < es.len() && #[trigger] connects(es[k], w[i], x) && (score_value(scores[x])
                < u64::MAX ==> score_value(scores[x]) >= score_value(scores[w[i]]) + es[k].2);
        let ks = seq![k] + rest;
        assert(ks.skip(1) =~= rest);
        assert(w.skip(i).skip(1) =~= w.skip(i + 1));
        assert forall|j: int| 0 <= j < ks.len() implies 0 <= #[trigger] ks[j] < es.len()
            && connects(es[ks[j]], w.skip(i)[j], w.skip(i)[j + 1]) by {
            if j > 0 {
                assert(ks[j] == rest[j - 1]);
                assert(w.skip(i)[j] == w.skip(i + 1)[j - 1]);
                assert(w.skip(i)[j + 1] == w.skip(i + 1)[j]);
            }
        }
        if i + 1 < w.len() - 1 {
            assert(precedes(scores, rt, w[i + 1], w[w.len() - 1]));
        }
        ks
    }
}

/// An entry of the open list: a waypoint, its priority `f = g + h`, and the
/// cost `g` with which it was pushed.
#[derive(Clone, Copy)]
struct OpenEntry {
    node: usize,
    f: u128,
    g: u64,
}

/// Some entry of `open` carries the current best cost of `x`.
spec fn has_current_entry(open: Seq<OpenEntry>, scores: Seq<Option<u64>>, x: int) -> bool {
    exists|j: int| 0 <= j < open.len() && (#[trigger] open[j]).node == x && scores[x] == Some(open[j].g)
}

pub open spec fn saturating_sum(v: nat, c: nat) -> nat {
    if v + c > u64::MAX {
        u64::MAX as nat
    } else {
        v + c
    }
}

/// Every edge at `x` has been relaxed: its other end is reached, at a cost
/// no higher than through `x`.
spec fn relaxed(es: Seq<(int, int, u64)>, scores: Seq<Option<u64>>, x: int) -> bool {
    forall|k: int|
        0 <= k < es.len() && #[trigger] touches(es[k], x) ==> reached(scores, other_end(es[k], x))
            && score_value(scores[other_end(es[k], x)]) <= saturating_sum(
            score_value(scores[x]),
            es[k].2 as nat,
        )
}

/// Each entry is for a reached waypoint, whose best cost is at most the
/// entry's own (a higher one marks the entry stale), and its priority is
/// its cost plus the heuristic to the goal.
spec fn entries_ok(open: Seq<OpenEntry>, scores: Seq<Option<u64>>, pos: Seq<Coords>, goal: int) -> bool {
    forall|j: int|
        0 <= j < open.len() ==> {
            &&& reached(scores, (#[trigger] open[j]).node as int)
            &&& scores[open[j].node as int].unwrap() <= open[j].g
            &&& open[j].f as int == open[j].g as int + heuristic(pos[open[j].node as int], pos[goal])
        }
}

/// Every reached waypoint but `skip` still waits in the open list with its
/// current cost, or has all its edges relaxed.
spec fn frontier_ok(
    es: Seq<(int, int, u64)>,
    scores: Seq<Option<u64>>,
    open: Seq<OpenEntry>,
    skip: int,
) -> bool {
    forall|x: int|
        #[trigger] reached(scores, x) && x != skip ==> has_current_entry(open, scores, x) || relaxed(
            es,
            scores,
            x,
        )
}

/// The heuristic never exceeds the cost of a route to the goal.
pub open spec fn admissible(pos: Seq<Coords>, es: Seq<(int, int, u64)>, goal: int) -> bool {
    forall|n: int, w: Seq<int>, ks: Seq<int>|
        #[trigger] is_route(es, w, ks, n, goal) ==> heuristic(pos[n], pos[goal]) <= route_cost(es, ks)
}

/// `ks` costs no more than any route from `s` to `t` (of those whose cost
/// stays below `u64::MAX`).
pub open spec fn cheapest(es: Seq<(int, int, u64)>, ks: Seq<int>, s: int, t: int) -> bool {
    forall|w2: Seq<int>, ks2: Seq<int>|
        #[trigger] is_route(es, w2, ks2, s, t) && route_cost(es, ks2) < u64::MAX ==> route_cost(es, ks)
            <= route_cost(es, ks2)
}

proof fn lemma_heuristic_to_itself(a: Coords)
    ensures
        heuristic(a, a) == 0,
{
    let r = crate::geometry::planar_dist(a, a);
    assert(crate::geometry::is_floor_sqrt(0, 0)) by (nonlinear_arith);
    assert(crate::geometry::planar_sq(a, a) == 0);
    assert(r * r <= 0);
    assert(r == 0) by (nonlinear_arith)
        requires r * r <= 0;
}

/// Along a route from the start whose `i`-th waypoint already has a cost no
/// higher than the route's prefix, some open entry has a priority no higher
/// than the whole route's cost.
proof fn lemma_open_entry_within_route(
    es: Seq<(int, int, u64)>,
    pos: Seq<Coords>,
    scores: Seq<Option<u64>>,
    open: Seq<OpenEntry>,
    start: int,
    goal: int,
    w: Seq<int>,
    ks: Seq<int>,
    i: int,
)
    requires
        edges_well_formed(pos.len() as int, es),
        scores.len() == pos.len(),
        0 <= start < pos.len(),
        0 <= goal < pos.len(),
        is_route(es, w, ks, start, goal),
        route_cost(es, ks) < u64::MAX,
        0 <= i <= ks.len(),
        score_value(scores[w[i]]) <= route_cost(es, ks.take(i)),
        frontier_ok(es, scores, open, -1),
        reached(scores, goal) ==> has_current_entry(open, scores, goal),
        entries_ok(open, scores, pos, goal),
        admissible(pos, es, goal),
    ensures
        exists|j: int| 0 <= j < open.len() && open[j].f <= route_cost(es, ks),
    decreases ks.len() - i,
{
    lemma_route_suffix(es, w, ks, start, goal, i);
    let x = w[i];
    if i == 0 {
        assert(x == start);
    } else {
        assert(connects(es[ks[i - 1]], w[i - 1], w[i]));
    }
    assert(0 <= x < pos.len());
    assert(reached(scores, x));
    if has_current_entry(open, scores, x) {
        let j = choose|j: int| 0 <= j < open.len() && (#[trigger] open[j]).node == x && scores[x] == Some(open[j].g);
        assert(is_route(es, w.skip(i), ks.skip(i), x, goal));
        assert(heuristic(pos[x], pos[goal]) <= route_cost(es, ks.skip(i)));
        assert(open[j].f <= route_cost(es, ks));
    } else {
        assert(relaxed(es, scores, x));
        if i == ks.len() {
            assert(x == goal);
        } else {
            let k = ks[i];
            assert(connects(es[k], w[i], w[i + 1]));
            assert(touches(es[k], x));
            assert(other_end(es[k], x) == w[i + 1]);
            lemma_route_cost_step(es, ks, i);
            lemma_open_entry_within_route(es, pos, scores, open, start, goal, w, ks, i + 1);
        }
    }
}

proof fn lemma_remove_keeps_current(
    open: Seq<OpenEntry>,
    idx: int,
    scores: Seq<Option<u64>>,
    x: int,
)
    requires
        0 <= idx < open.len(),
        has_current_entry(open, scores, x),
        !(open[idx].node == x && scores[x] == Some(open[idx].g)),
    ensures
        has_current_entry(open.remove(idx), scores, x),
{
    let j = choose|j: int| 0 <= j < open.len() && (#[trigger] open[j]).node == x && scores[x] == Some(open[j].g);
    if j < idx {
        assert(open.remove(idx)[j] == open[j]);
    } else {
        assert(open.remove(idx)[j - 1] == open[j]);
    }
}

proof fn lemma_push_keeps_current(
    open: Seq<OpenEntry>,
    e: OpenEntry,
    scores: Seq<Option<u64>>,
    new_scores: Seq<Option<u64>>,
    x: int,
)
    requires
        has_current_entry(open, scores, x),
        new_scores[x] == scores[x],
    ensures
        has_current_entry(open.push(e), new_scores, x),
{
    let j = choose|j: int| 0 <= j < open.len() && (#[trigger] open[j]).node == x && scores[x] == Some(open[j].g);
    assert(open.push(e)[j] == open[j]);
}

/// The entry with the lowest priority; among equal priorities, the one
/// pushed first.
fn lowest_entry(open: &Vec<OpenEntry>) -> (r: usize)
    requires
        open@.len() > 0,
    ensures
        r < open@.len(),
        forall|j: int| 0 <= j < open@.len() ==> open@[j].f >= open@[r as int].f,
        forall|j: int| 0 <= j < r ==> open@[j].f > open@[r as int].f,
{
    let mut best: usize = 0;
    let mut i: usize = 1;
    while i < open.len()
        invariant
            0 <= best < i <= open@.len(),
            forall|j: int| 0 <= j < i ==> open@[j].f >= open@[best as int].f,
            forall|j: int| 0 <= j < best ==> open@[j].f > open@[best as int].f,
        decreases open@.len() - i,
    {
        if open[i].f < open[best].f {
            best = i;
        }
        i = i + 1;
    }
    best
}

/// A* from `start` to `goal`. The open list is ordered by `f = g + h`,
/// where `h` is `Coords::euc_dist` to the goal; ties go to the entry pushed
/// first. A waypoint is pushed again whenever its cost improves, and a
/// popped entry whose cost is no longer current is skipped. Costs that
/// would pass `u64::MAX` stay at `u64::MAX`.
///
/// Returns the positions along the route found, from `start` to `goal`;
/// `Ok(None)` when no route joins them; `[position of start]` when they are
/// the same waypoint; and `UnknownWaypoint` for a handle that the graph does
/// not hold. Where the heuristic never overestimates the cost of reaching
/// the goal, the route found is a cheapest one.
#[verifier::loop_isolation(false)]
#[verifier::rlimit(40)]
pub fn find_path(graph: &NavGraph, start: usize, goal: usize) -> (r: Result<
    Option<Vec<Coords>>,
    SearchError,
>)
    requires
        graph.well_formed(),
    ensures
        r is Err <==> (start >= graph.positions().len() || goal >= graph.positions().len()),
        r is Err ==> r == Err::<Option<Vec<Coords>>, SearchError>(SearchError::UnknownWaypoint),
        r matches Ok(o) ==> (o is Some <==> reachable(graph.edges(), start as int, goal as int)),
        r matches Ok(Some(path)) ==> exists|w: Seq<int>, ks: Seq<int>|
            {
                &&& is_route(graph.edges(), w, ks, start as int, goal as int)
                &&& path@ == route_positions(graph.positions(), w)
                &&& forall|i: int, j: int| 0 <= i < j < w.len() ==> w[i] != w[j]
                &&& admissible(graph.positions(), graph.edges(), goal as int) ==> cheapest(
                    graph.edges(),
                    ks,
                    start as int,
                    goal as int,
                )
            },
        r is Ok && start == goal ==> (r matches Ok(Some(path)) && path@ == seq![
            graph.positions()[start as int],
        ]),
{
    let n = graph.node_count();
    if start >= n || goal >= n {
        return Err(SearchError::UnknownWaypoint);
    }
    let ghost es = graph.edges();
    let ghost pos = graph.positions();
    let start_pos = graph.position(start).unwrap();
    let goal_pos = graph.position(goal).unwrap();
    let mut g_score: Vec<Option<u64>> = Vec::new();
    let mut came_from: Vec<Option<usize>> = Vec::new();
    let mut i: usize = 0;
    while i < n
        invariant
            0 <= i <= n,
            g_score@.len() == i,
            came_from@.len() == i,
            forall|j: int| 0 <= j < i ==> g_score@[j] is None && came_from@[j] is None,
        decreases n - i,
    {
        g_score.push(None);
        came_from.push(None);
        i = i + 1;
    }
    g_score.set(start, Some(0));
    let ghost mut rt: Seq<int> = Seq::new(n as nat, |j: int| 0int);
    let ghost mut clock: int = 1;
    let mut open: Vec<OpenEntry> = Vec::new();
    open.push(OpenEntry { node: start, f: start_pos.euc_dist(&goal_pos) as u128, g: 0 });
    proof {
        assert forall|x: int| #[trigger] reached(g_score@, x) implies x == start by {}
        assert(open@[0].node == start);
    }
    while open.len() > 0
        invariant
            g_score@.len() == n,
            came_from@.len() == n,
            rt.len() == n,
            chains_ok(es, start as int, g_score@, came_from@, rt),
            forall|x: int| #[trigger] reached(g_score@, x) ==> rt[x] < clock,
            clock > 0,
            entries_ok(open@, g_score@, pos, goal as int),
            frontier_ok(es, g_score@, open@, -1),
            reached(g_score@, goal as int) ==> has_current_entry(open@, g_score@, goal as int),
        decreases score_total(g_score@) + open@.len(),
    {
        let ghost budget = score_total(g_score@) + open@.len();
        let idx = lowest_entry(&open);
        let ghost before = open@;
        let entry = open.remove(idx);
        let cur = entry.node;
        if cur == goal {
            proof {
                assert forall|x: int| #[trigger] reached(g_score@, x) && x != start implies {
                    &&& came_from@[x] is Some
                    &&& reached(g_score@, came_from@[x].unwrap() as int)
                    &&& precedes(g_score@, rt, came_from@[x].unwrap() as int, x)
                } by {}
            }
            let path = reconstruct_path(
                graph,
                &came_from,
                goal,
                Ghost(start as int),
                Ghost(g_score@),
                Ghost(rt),
            );
            proof {
                let w = choose|w: Seq<int>|
                    {
                        &&& is_chain_to(came_from@, w, goal as int)
                        &&& w[0] == start
                        &&& path@ == route_positions(pos, w)
                        &&& path@.len() == w.len()
                        &&& forall|i: int| 0 <= i < w.len() ==> reached(g_score@, #[trigger] w[i])
                        &&& forall|i: int, j: int|
                            0 <= i < j < w.len() ==> precedes(g_score@, rt, #[trigger] w[i], #[trigger] w[j])
                    };
                let ks = lemma_chain_is_route(es, start as int, g_score@, came_from@, rt, w, goal as int, 0);
                assert(w.skip(0) =~= w);
                assert(is_route(es, w, ks, start as int, goal as int));
                assert forall|i: int, j: int| 0 <= i < j < w.len() implies w[i] != w[j] by {
                    assert(precedes(g_score@, rt, w[i], w[j]));
                }
                if admissible(pos, es, goal as int) {
                    assert forall|w2: Seq<int>, ks2: Seq<int>|
                        #[trigger] is_route(es, w2, ks2, start as int, goal as int) && route_cost(
                            es,
                            ks2,
                        ) < u64::MAX implies route_cost(es, ks) <= route_cost(es, ks2) by {
                        assert(ks2.take(0).len() == 0);
                        assert(route_cost(es, ks2.take(0)) == 0);
                        lemma_open_entry_within_route(
                            es,
                            pos,
                            g_score@,
                            before,
                            start as int,
                            goal as int,
                            w2,
                            ks2,
                            0,
                        );
                        let j = choose|j: int| 0 <= j < before.len() && before[j].f <= route_cost(es, ks2);
                        assert(before[idx as int] == entry);
                        lemma_heuristic_to_itself(pos[goal as int]);
                        assert(entry.f as int == entry.g as int);
                    }
                }
            }
            return Ok(Some(path));
        }
        assert(reached(g_score@, cur as int));
        let gc = g_score[cur].unwrap();
        let stale = entry.g != gc;
        proof {
            assert forall|x: int|
                #[trigger] reached(g_score@, x) && (stale || x != cur) && has_current_entry(
                    before,
                    g_score@,
                    x,
                ) implies has_current_entry(open@, g_score@, x) by {
                lemma_remove_keeps_current(before, idx as int, g_score@, x);
            }
            assert(reached(g_score@, goal as int) ==> has_current_entry(open@, g_score@, goal as int));
            assert forall|j: int| 0 <= j < open@.len() implies #[trigger] open@[j] == before[if j < idx { j } else { j + 1 }] by {}
        }
        if !stale {
            let nbrs = graph.neighbours(cur);
            let mut k: usize = 0;
            while k < nbrs.len()
                invariant
                    g_score@.len() == n,
                    came_from@.len() == n,
                    rt.len() == n,
                    chains_ok(es, start as int, g_score@, came_from@, rt),
                    forall|x: int| #[trigger] reached(g_score@, x) ==> rt[x] < clock,
                    clock > 0,
                    entries_ok(open@, g_score@, pos, goal as int),
                    frontier_ok(es, g_score@, open@, cur as int),
                    reached(g_score@, goal as int) ==> has_current_entry(open@, g_score@, goal as int),
                    g_score@[cur as int] == Some(gc),
                    0 <= k <= nbrs@.len(),
                    forall|j: int|
                        0 <= j < k ==> reached(g_score@, (#[trigger] nbrs@[j]).0 as int) && score_value(
                            g_score@[nbrs@[j].0 as int],
                        ) <= saturating_sum(gc as nat, nbrs@[j].1 as nat),
                    score_total(g_score@) + open@.len() < budget,
                decreases nbrs@.len() - k,
            {
                let (m, c) = nbrs[k];
                proof {
                    assert(has_edge(es, cur as int, nbrs@[k as int].0 as int, nbrs@[k as int].1));
                    let e = choose|e: int| 0 <= e < es.len() && #[trigger] edge_joins(es[e], cur as int, m as int, c);
                    assert(connects(es[e], cur as int, m as int));
                    assert(c > 0);
                }
                let tentative: u64 = if gc > u64::MAX - c {
                    u64::MAX
                } else {
                    gc + c
                };
                assert(tentative as nat == saturating_sum(gc as nat, c as nat));
                let better = match g_score[m] {
                    None => true,
                    Some(old) => tentative < old,
                };
                if better {
                    let ghost old_scores = g_score@;
                    let ghost old_open = open@;
                    let ghost old_rt = rt;
                    let ghost old_clock = clock;
                    proof {
                        if old_scores[m as int] is None {
                            rt = rt.update(m as int, clock);
                            clock = clock + 1;
                        }
                        lemma_score_total_update(old_scores, m as int, Some(tentative));
                    }
                    g_score.set(m, Some(tentative));
                    came_from.set(m, Some(cur));
                    let m_pos = graph.position(m).unwrap();
                    let h = m_pos.euc_dist(&goal_pos);
                    let e = OpenEntry { node: m, f: tentative as u128 + h as u128, g: tentative };
                    open.push(e);
                    proof {
                        let ek = choose|ek: int| 0 <= ek < es.len() && #[trigger] edge_joins(es[ek], cur as int, m as int, c);
                        assert(connects(es[ek], cur as int, m as int));
                        assert(m != start);
                        assert(m != cur);
                        assert(g_score@[start as int] == Some(0u64));
                        assert(came_from@[start as int] is None);
                        assert forall|y: int| 0 <= y < n implies score_value(#[trigger] g_score@[y]) <= score_value(old_scores[y]) by {}
                        assert forall|x: int| #[trigger] reached(g_score@, x) implies 0 <= rt[x] < clock by {
                            if x != m as int {
                                assert(reached(old_scores, x));
                                assert(rt[x] == old_rt[x]);
                                assert(old_rt[x] >= 0);
                            } else if old_scores[m as int] is None {
                                assert(rt[x] == old_clock);
                            } else {
                                assert(reached(old_scores, x));
                                assert(rt[x] == old_rt[x]);
                                assert(old_rt[x] >= 0);
                            }
                        }
                        assert(open@[open@.len() - 1] == e);
                        assert forall|j: int| 0 <= j < open@.len() implies {
                            &&& reached(g_score@, (#[trigger] open@[j]).node as int)
                            &&& g_score@[open@[j].node as int].unwrap() <= open@[j].g
                            &&& open@[j].f as int == open@[j].g as int + heuristic(pos[open@[j].node as int], pos[goal as int])
                        } by {
                            if j < old_open.len() {
                                assert(open@[j] == old_open[j]);
                            }
                        }
                        assert(has_current_entry(open@, g_score@, m as int));
                        assert forall|x: int|
                            #[trigger] reached(g_score@, x) && x != m && has_current_entry(
                                old_open,
                                old_scores,
                                x,
                            ) implies has_current_entry(open@, g_score@, x) by {
                            lemma_push_keeps_current(old_open, e, old_scores, g_score@, x);
                        }
                        assert forall|x: int|
                            #[trigger] reached(g_score@, x) && x != cur as int implies has_current_entry(
                                open@,
                                g_score@,
                                x,
                            ) || relaxed(es, g_score@, x) by {
                            if x != m as int {
                                assert(reached(old_scores, x));
                                if !has_current_entry(old_open, old_scores, x) {
                                    assert(relaxed(es, old_scores, x));
                                    assert forall|kk: int|
                                        0 <= kk < es.len() && #[trigger] touches(es[kk], x) implies reached(
                                            g_score@,
                                            other_end(es[kk], x),
                                        ) && score_value(g_score@[other_end(es[kk], x)]) <= saturating_sum(
                                            score_value(g_score@[x]),
                                            es[kk].2 as nat,
                                        ) by {
                                        let y = other_end(es[kk], x);
                                        assert(reached(old_scores, y));
                                        assert(score_value(g_score@[y]) <= score_value(old_scores[y]));
                                    }
                                }
                            }
                        }
                        assert forall|x: int| #[trigger]
                            reached(g_score@, x) && x != start as int implies {
                            &&& came_from@[x] is Some
                            &&& reached(g_score@, came_from@[x].unwrap() as int)
                            &&& link_ok(es, g_score@, came_from@[x].unwrap() as int, x)
                            &&& precedes(g_score@, rt, came_from@[x].unwrap() as int, x)
                        } by {
                            if x != m as int {
                                assert(reached(old_scores, x));
                                let p = came_from@[x].unwrap() as int;
                                assert(precedes(old_scores, old_rt, p, x));
                                assert(reached(old_scores, p));
                                assert(link_ok(es, old_scores, p, x));
                                let lk = choose|lk: int|
                                    0 <= lk < es.len() && #[trigger] connects(es[lk], p, x) && (score_value(
                                        old_scores[x],
                                    ) < u64::MAX ==> score_value(old_scores[x]) >= score_value(
                                        old_scores[p],
                                    ) + es[lk].2);
                                if p == m as int {
                                    assert(score_value(g_score@[p]) < score_value(old_scores[p]));
                                } else {
                                    assert(g_score@[p] == old_scores[p]);
                                    assert(rt[p] == old_rt[p]);
                                }
                                assert(g_score@[x] == old_scores[x]);
                                assert(rt[x] == old_rt[x]);
                                assert(connects(es[lk], p, x));
                            } else {
                                assert(came_from@[x] == Some(cur));
                                assert(reached(old_scores, cur as int));
                                assert(connects(es[ek], cur as int, x));
                                assert(es[ek].2 == c);
                                assert(old_rt[cur as int] < clock - 1 || old_scores[m as int] is Some);
                            }
                        }
                        assert forall|j: int|
                            0 <= j < k + 1 implies reached(g_score@, (#[trigger] nbrs@[j]).0 as int) && score_value(
                                g_score@[nbrs@[j].0 as int],
                            ) <= saturating_sum(gc as nat, nbrs@[j].1 as nat) by {
                            if j < k {
                                assert(reached(old_scores, nbrs@[j].0 as int));
                            }
                        }
                    }
                }
                k = k + 1;
            }
            proof {
                assert forall|kk: int|
                    0 <= kk < es.len() && #[trigger] touches(es[kk], cur as int) implies reached(
                        g_score@,
                        other_end(es[kk], cur as int),
                    ) && score_value(g_score@[other_end(es[kk], cur as int)]) <= saturating_sum(
                        score_value(g_score@[cur as int]),
                        es[kk].2 as nat,
                    ) by {
                    let j = choose|j: int|
                        0 <= j < nbrs@.len() && nbrs@[j].0 as int == other_end(es[kk], cur as int)
                            && nbrs@[j].1 == es[kk].2;
                    assert(reached(g_score@, nbrs@[j].0 as int));
                }
                assert(relaxed(es, g_score@, cur as int));
            }
        }
    }
    proof {
        let member = |x: int| reached(g_score@, x);
        assert forall|a: int, b: int| member(a) && #[trigger] adjacent(es, a, b) implies member(
            b,
        ) by {
            assert(reached(g_score@, a));
            assert(relaxed(es, g_score@, a));
            let kk = choose|kk: int| 0 <= kk < es.len() && #[trigger] connects(es[kk], a, b);
            assert(touches(es[kk], a));
            assert(other_end(es[kk], a) == b);
        }
        if reachable(es, start as int, goal as int) {
            lemma_closed_set_holds_reachable(es, member, start as int, goal as int);
        }
        if start == goal {
            assert(is_route(es, seq![start as int], Seq::<int>::empty(), start as int, goal as int));
        }
    }
    Ok(None)
}

/// The route between two rooms named by their aliases: the rooms are
/// looked up in `rooms`, then searched with `find_path`. An alias that the
/// index lacks, or that points at no waypoint of the graph, gives
/// `UnknownWaypoint`, never `Ok(None)`.
pub fn route_between_rooms(
    graph: &NavGraph,
    rooms: &RoomIndex,
    src_room: &String,
    dst_room: &String,
) -> (r: Result<Option<Vec<Coords>>, SearchError>)
    requires
        graph.well_formed(),
    ensures
        r is Err <==> !(rooms@.contains_key(src_room@) && rooms@.contains_key(dst_room@)
            && rooms@[src_room@] < graph.positions().len() && rooms@[dst_room@]
            < graph.positions().len()),
        r is Err ==> r == Err::<Option<Vec<Coords>>, SearchError>(SearchError::UnknownWaypoint),
        r matches Ok(o) ==> {
            let s = rooms@[src_room@] as int;
            let t = rooms@[dst_room@] as int;
            &&& (o is Some <==> reachable(graph.edges(), s, t))
            &&& (o matches Some(path) ==> exists|w: Seq<int>, ks: Seq<int>|
                {
                    &&& is_route(graph.edges(), w, ks, s, t)
                    &&& path@ == route_positions(graph.positions(), w)
                    &&& forall|i: int, j: int| 0 <= i < j < w.len() ==> w[i] != w[j]
                    &&& admissible(graph.positions(), graph.edges(), t) ==> cheapest(
                        graph.edges(),
                        ks,
                        s,
                        t,
                    )
                })
            &&& (s == t ==> (o matches Some(path) && path@ == seq![graph.positions()[s]]))
        },
{
    let src = match rooms.lookup(src_room) {
        Some(h) => h,
        None => return Err(SearchError::UnknownWaypoint),
    };
    let dst = match rooms.lookup(dst_room) {
        Some(h) => h,
        None => return Err(SearchError::UnknownWaypoint),
    };
    find_path(graph, src, dst)
}

} // verus!
