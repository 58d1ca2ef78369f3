//! Edge costs that never undercut the heuristic: where every edge costs
//! at least its planar length plus the height it climbs, the heuristic
//! never overestimates a route's cost.
use vstd::prelude::*;
use crate::geometry::{Coords, abs_diff, planar_sq, planar_dist, heuristic, is_floor_sqrt, lemma_floor_sqrt_exists};
use crate::graph::{NavGraph, connects, is_route, route_cost, lemma_route_suffix};
use crate::search::admissible;

verus! {

/// The edge costs at least its straight-line length in the plane plus the
/// height it climbs: `c - |dz|` is at least the planar distance. A
/// same-floor edge costs at least its planar length; a stair or elevator
/// edge straight up or down costs at least its height.
pub open spec fn covers_heuristic(a: Coords, b: Coords, c: u64) -> bool {
    let dz = abs_diff(a.z as int, b.z as int);
    c as int >= dz && (c as int - dz) * (c as int - dz) >= planar_sq(a, b)
}

pub open spec fn floor_plan_costs(pos: Seq<Coords>, es: Seq<(int, int, u64)>) -> bool {
    forall|k: int|
        0 <= k < es.len() ==> covers_heuristic(pos[(#[trigger] es[k]).0], pos[es[k].1], es[k].2)
}

proof fn lemma_square_of_abs_diff(a: int, b: int)
    ensures
        abs_diff(a, b) * abs_diff(a, b) == (a - b) * (a - b),
{
    if a >= b {
        assert(abs_diff(a, b) == a - b);
    } else {
        assert(abs_diff(a, b) == b - a);
        assert((b - a) * (b - a) == (a - b) * (a - b)) by (nonlinear_arith);
    }
}

proof fn lemma_planar_sq(a: Coords, b: Coords)
    ensures
        planar_sq(a, b) == (a.x - b.x) * (a.x - b.x) + (a.y - b.y) * (a.y - b.y),
        planar_sq(a, b) == planar_sq(b, a),
{
    lemma_square_of_abs_diff(a.x as int, b.x as int);
    lemma_square_of_abs_diff(a.y as int, b.y as int);
    lemma_square_of_abs_diff(b.x as int, a.x as int);
    lemma_square_of_abs_diff(b.y as int, a.y as int);
    assert((a.x - b.x) * (a.x - b.x) == (b.x - a.x) * (b.x - a.x)) by (nonlinear_arith);
    assert((a.y - b.y) * (a.y - b.y) == (b.y - a.y) * (b.y - a.y)) by (nonlinear_arith);
}

/// `(u1² + u2²)(v1² + v2²) == (u1 v1 + u2 v2)² + (u1 v2 - u2 v1)²`.
proof fn lemma_lagrange_identity(u1: int, u2: int, v1: int, v2: int)
    ensures
        (u1 * u1 + u2 * u2) * (v1 * v1 + v2 * v2) == (u1 * v1 + u2 * v2) * (u1 * v1 + u2 * v2) + (u1
            * v2 - u2 * v1) * (u1 * v2 - u2 * v1),
{
    let a = u1 * v1;
    let b = u2 * v2;
    let c = u1 * v2;
    let d = u2 * v1;
    let p1 = u1 * u1;
    let p2 = u2 * u2;
    let q1 = v1 * v1;
    let q2 = v2 * v2;
    assert((a + b) * (a + b) == a * a + 2 * (a * b) + b * b) by (nonlinear_arith);
    assert((c - d) * (c - d) == c * c - 2 * (c * d) + d * d) by (nonlinear_arith);
    assert(a * b == c * d) by (nonlinear_arith)
        requires
            a == u1 * v1,
            b == u2 * v2,
            c == u1 * v2,
            d == u2 * v1,
    ;
    assert(a * a == p1 * q1) by (nonlinear_arith)
        requires
            a == u1 * v1,
            p1 == u1 * u1,
            q1 == v1 * v1,
    ;
    assert(b * b == p2 * q2) by (nonlinear_arith)
        requires
            b == u2 * v2,
            p2 == u2 * u2,
            q2 == v2 * v2,
    ;
    assert(c * c == p1 * q2) by (nonlinear_arith)
        requires
            c == u1 * v2,
            p1 == u1 * u1,
            q2 == v2 * v2,
    ;
    assert(d * d == p2 * q1) by (nonlinear_arith)
        requires
            d == u2 * v1,
            p2 == u2 * u2,
            q1 == v1 * v1,
    ;
    assert((p1 + p2) * (q1 + q2) == p1 * q1 + p1 * q2 + p2 * q1 + p2 * q2) by (nonlinear_arith);
}

/// The triangle inequality, in squares: two legs no longer than `c` and
/// `d` make a sum no longer than `c + d`.
proof fn lemma_triangle(u1: int, u2: int, v1: int, v2: int, c: int, d: int)
    requires
        c >= 0,
        d >= 0,
        c * c >= u1 * u1 + u2 * u2,
        d * d >= v1 * v1 + v2 * v2,
    ensures
        (c + d) * (c + d) >= (u1 + v1) * (u1 + v1) + (u2 + v2) * (u2 + v2),
{
    let s = u1 * v1 + u2 * v2;
    let t = u1 * v2 - u2 * v1;
    let p = u1 * u1 + u2 * u2;
    let q = v1 * v1 + v2 * v2;
    assert(t * t >= 0) by (nonlinear_arith);
    assert(u1 * u1 >= 0 && u2 * u2 >= 0 && v1 * v1 >= 0 && v2 * v2 >= 0) by (nonlinear_arith);
    lemma_lagrange_identity(u1, u2, v1, v2);
    assert(p * q <= (c * c) * (d * d)) by (nonlinear_arith)
        requires
            c * c >= p,
            d * d >= q,
            p >= 0,
            q >= 0,
    ;
    assert(s * s <= (c * c) * (d * d));
    assert(s <= c * d) by (nonlinear_arith)
        requires
            s * s <= (c * c) * (d * d),
            c >= 0,
            d >= 0,
    ;
    assert((c + d) * (c + d) >= (u1 + v1) * (u1 + v1) + (u2 + v2) * (u2 + v2)) by (nonlinear_arith)
        requires
            s == u1 * v1 + u2 * v2,
            s <= c * d,
            c * c >= u1 * u1 + u2 * u2,
            d * d >= v1 * v1 + v2 * v2,
    ;
}

/// A route's cost splits into a planar part, whose square covers the
/// squared planar distance from its start to its end, and a vertical part
/// that covers the height between them.
proof fn lemma_route_covers_distance(
    pos: Seq<Coords>,
    es: Seq<(int, int, u64)>,
    w: Seq<int>,
    ks: Seq<int>,
    n: int,
    goal: int,
) -> (split: (nat, nat))
    requires
        floor_plan_costs(pos, es),
        is_route(es, w, ks, n, goal),
    ensures
        split.0 + split.1 <= route_cost(es, ks),
        split.0 * split.0 >= planar_sq(pos[n], pos[goal]),
        split.1 >= abs_diff(pos[n].z as int, pos[goal].z as int),
    decreases ks.len(),
{
    if ks.len() == 0 {
        assert(n == goal);
        lemma_planar_sq(pos[n], pos[goal]);
        (0, 0)
    } else {
        lemma_route_suffix(es, w, ks, n, goal, 1);
        let m = w[1];
        let rest = lemma_route_covers_distance(pos, es, w.skip(1), ks.skip(1), m, goal);
        let k = ks[0];
        let c = es[k].2;
        assert(route_cost(es, ks) == c as nat + route_cost(es, ks.skip(1)));
        assert(connects(es[k], n, m));
        let a = pos[n];
        let b = pos[m];
        let g = pos[goal];
        lemma_planar_sq(a, b);
        lemma_planar_sq(b, g);
        lemma_planar_sq(a, g);
        lemma_planar_sq(pos[es[k].0], pos[es[k].1]);
        assert(covers_heuristic(pos[es[k].0], pos[es[k].1], c));
        let dz = abs_diff(a.z as int, b.z as int);
        assert(abs_diff(pos[es[k].0].z as int, pos[es[k].1].z as int) == dz);
        assert(covers_heuristic(a, b, c));
        let cp = c as int - dz;
        lemma_triangle(a.x - b.x, a.y - b.y, b.x - g.x, b.y - g.y, cp, rest.0 as int);
        assert((a.x - b.x) + (b.x - g.x) == a.x - g.x);
        assert((a.y - b.y) + (b.y - g.y) == a.y - g.y);
        ((cp + rest.0) as nat, (dz + rest.1) as nat)
    }
}

/// Where every edge costs at least its planar length plus the height it
/// climbs, the heuristic never
/// overestimates the cost of a route to any goal, so that `find_path`
/// returns a cheapest route.
pub proof fn lemma_floor_plan_costs_admissible(graph: &NavGraph, goal: int)
    requires
        floor_plan_costs(graph.positions(), graph.edges()),
    ensures
        admissible(graph.positions(), graph.edges(), goal),
{
    let pos = graph.positions();
    let es = graph.edges();
    assert forall|n: int, w: Seq<int>, ks: Seq<int>|
        #[trigger] is_route(es, w, ks, n, goal) implies heuristic(pos[n], pos[goal]) <= route_cost(
            es,
            ks,
        ) by {
        let split = lemma_route_covers_distance(pos, es, w, ks, n, goal);
        let r = planar_dist(pos[n], pos[goal]);
        assert(exists|r: nat| #[trigger] is_floor_sqrt(planar_sq(pos[n], pos[goal]), r)) by {
            lemma_floor_sqrt_exists(planar_sq(pos[n], pos[goal]));
        }
        assert(is_floor_sqrt(planar_sq(pos[n], pos[goal]), r));
        assert(r <= split.0) by (nonlinear_arith)
            requires
                r * r <= planar_sq(pos[n], pos[goal]),
                split.0 * split.0 >= planar_sq(pos[n], pos[goal]),
        ;
    }
}

} // verus!
