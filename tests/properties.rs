use graph_library::geometry::Coords;
use graph_library::graph::NavGraph;
use graph_library::loader::{create_graph_from_json, Adj, NodeRecord};
use graph_library::rooms::RoomIndex;
use graph_library::search::{find_path, route_between_rooms, SearchError};

fn rec(id: u64, pos: (i32, i32, i32), names: &[&str], conns: &[(u64, u64)]) -> NodeRecord {
    NodeRecord {
        id,
        coordinates: Coords { x: pos.0, y: pos.1, z: pos.2 },
        room_names: names.iter().map(|s| s.to_string()).collect(),
        connections: conns.iter().map(|&(target, cost)| Adj { target, cost }).collect(),
    }
}

fn c(x: i32, y: i32, z: i32) -> Coords {
    Coords { x, y, z }
}

/// The two-floor graph: a room, a junction, a stair landing, and a second
/// room on the landing's spot that nothing connects to.
fn two_floors() -> Vec<NodeRecord> {
    vec![
        rec(1, (0, 0, 0), &["101"], &[(2, 5)]),
        rec(2, (5, 0, 0), &[], &[(1, 5), (3, 12)]),
        rec(3, (5, 0, 50), &[], &[(2, 12)]),
        rec(4, (5, 0, 50), &["301"], &[]),
    ]
}

/// Cost of the cheapest edge between two positions of `recs`.
fn step_cost(recs: &[NodeRecord], a: Coords, b: Coords) -> u64 {
    let mut best: Option<u64> = None;
    for r in recs {
        for adj in &r.connections {
            let t = recs.iter().find(|q| q.id == adj.target).unwrap();
            if (r.coordinates == a && t.coordinates == b) || (r.coordinates == b && t.coordinates == a) {
                best = Some(best.map_or(adj.cost, |v: u64| v.min(adj.cost)));
            }
        }
    }
    best.expect("consecutive positions are joined by an edge")
}

fn path_cost(recs: &[NodeRecord], path: &[Coords]) -> u64 {
    path.windows(2).map(|w| step_cost(recs, w[0], w[1])).sum()
}

#[test]
fn two_floor_scenario() {
    let recs = two_floors();
    let (g, rooms) = create_graph_from_json(&recs).unwrap();
    let s = rooms.lookup(&"101".to_string()).unwrap();
    let path = find_path(&g, s, 2).unwrap().unwrap();
    assert_eq!(path, vec![c(0, 0, 0), c(5, 0, 0), c(5, 0, 50)]);
    assert_eq!(path_cost(&recs, &path), 17);
}

#[test]
fn disconnected_waypoint_has_no_path() {
    let recs = two_floors();
    let (g, rooms) = create_graph_from_json(&recs).unwrap();
    let r = route_between_rooms(&g, &rooms, &"101".to_string(), &"301".to_string());
    assert_eq!(r, Ok(None));
    assert_eq!(find_path(&g, 3, 0), Ok(None));
}

#[test]
fn unknown_room_is_not_no_path() {
    let recs = two_floors();
    let (g, rooms) = create_graph_from_json(&recs).unwrap();
    let r = route_between_rooms(&g, &rooms, &"101".to_string(), &"999".to_string());
    assert_eq!(r, Err(SearchError::UnknownWaypoint));
    assert_eq!(find_path(&g, 0, 4), Err(SearchError::UnknownWaypoint));
    assert_eq!(find_path(&g, 17, 0), Err(SearchError::UnknownWaypoint));
}

#[test]
fn start_equals_goal_is_one_position() {
    let recs = two_floors();
    let (g, _) = create_graph_from_json(&recs).unwrap();
    assert_eq!(find_path(&g, 1, 1), Ok(Some(vec![c(5, 0, 0)])));
    // also for a waypoint with no edge at all
    assert_eq!(find_path(&g, 3, 3), Ok(Some(vec![c(5, 0, 50)])));
}

#[test]
fn every_alias_resolves_to_a_waypoint() {
    let recs = vec![
        rec(10, (0, 0, 0), &["A", "B"], &[]),
        rec(20, (1, 0, 0), &["C"], &[]),
        rec(30, (2, 0, 0), &["B"], &[]),
    ];
    let (g, rooms) = create_graph_from_json(&recs).unwrap();
    for name in ["A", "B", "C"] {
        let h = rooms.lookup(&name.to_string()).unwrap();
        assert!(g.position(h).is_some());
    }
    // a reused alias points at the later waypoint
    assert_eq!(rooms.lookup(&"B".to_string()), Some(2));
    assert_eq!(rooms.lookup(&"D".to_string()), None);
}

#[test]
fn connection_listed_twice_gives_one_edge() {
    // the pair is listed from both ends with different costs: the lower id's
    // cost is the one kept
    let recs = vec![
        rec(1, (0, 0, 0), &[], &[(2, 4)]),
        rec(2, (0, 4, 0), &[], &[(1, 9), (3, 4)]),
        rec(3, (0, 8, 0), &[], &[(2, 4)]),
    ];
    let (g, _) = create_graph_from_json(&recs).unwrap();
    assert_eq!(g.neighbours(0), vec![(1, 4)]);
    let mut n1 = g.neighbours(1);
    n1.sort();
    assert_eq!(n1, vec![(0, 4), (2, 4)]);
    assert_eq!(g.neighbours(2), vec![(1, 4)]);
}

#[test]
fn connection_listed_by_higher_id_only_gives_one_edge() {
    let recs = vec![rec(1, (0, 0, 0), &[], &[]), rec(2, (0, 4, 0), &[], &[(1, 4)])];
    let (g, _) = create_graph_from_json(&recs).unwrap();
    assert_eq!(g.neighbours(0), vec![(1, 4)]);
    assert_eq!(g.neighbours(1), vec![(0, 4)]);
    assert_eq!(find_path(&g, 0, 1), Ok(Some(vec![c(0, 0, 0), c(0, 4, 0)])));
}

#[test]
fn connection_listed_repeatedly_gives_one_edge() {
    // the lower id lists the pair twice, the higher id once more: one edge,
    // with the cost that the lower id lists first
    let recs = vec![
        rec(1, (0, 0, 0), &[], &[(2, 3), (2, 7)]),
        rec(2, (0, 3, 0), &[], &[(1, 5), (1, 3)]),
    ];
    let (g, _) = create_graph_from_json(&recs).unwrap();
    assert_eq!(g.neighbours(0), vec![(1, 3)]);
    assert_eq!(g.neighbours(1), vec![(0, 3)]);
}

#[test]
fn entry_naming_its_own_waypoint_gives_no_edge() {
    let recs = vec![rec(1, (0, 0, 0), &[], &[(1, 2)]), rec(2, (0, 3, 0), &[], &[])];
    let (g, _) = create_graph_from_json(&recs).unwrap();
    assert_eq!(g.neighbours(0), Vec::new());
    assert_eq!(find_path(&g, 0, 1), Ok(None));
}

#[test]
fn mixed_edge_costing_planar_length_plus_height_keeps_routes_cheapest() {
    // a ramp that climbs while moving: cost 5 + 10 = 15 covers it
    let recs = vec![
        rec(0, (0, 0, 0), &["a"], &[(1, 15), (2, 3)]),
        rec(1, (3, 4, 10), &["b"], &[(0, 15), (3, 20)]),
        rec(2, (3, 0, 0), &[], &[(0, 3), (3, 34)]),
        rec(3, (3, 4, 30), &[], &[(1, 20), (2, 34)]),
    ];
    let (g, _) = create_graph_from_json(&recs).unwrap();
    for a in 0..recs.len() {
        for b in 0..recs.len() {
            let path = find_path(&g, a, b).unwrap().unwrap();
            assert_eq!(Some(path_cost(&recs, &path)), cheapest(&recs, a, b));
        }
    }
}

/// Cheapest path cost by Bellman-Ford style relaxation over a small graph.
fn cheapest(recs: &[NodeRecord], s: usize, t: usize) -> Option<u64> {
    let n = recs.len();
    let mut d: Vec<Option<u64>> = vec![None; n];
    d[s] = Some(0);
    for _ in 0..n {
        for (i, r) in recs.iter().enumerate() {
            for adj in &r.connections {
                let j = recs.iter().position(|q| q.id == adj.target).unwrap();
                if r.id < adj.target {
                    for (a, b) in [(i, j), (j, i)] {
                        if let Some(da) = d[a] {
                            if d[b].map_or(true, |db| da + adj.cost < db) {
                                d[b] = Some(da + adj.cost);
                            }
                        }
                    }
                }
            }
        }
    }
    d[t]
}

#[test]
fn admissible_heuristic_gives_cheapest_route() {
    // same-floor costs at least the planar distance, vertical costs at least
    // the height difference: A* finds the cheapest route
    let recs = vec![
        rec(0, (0, 0, 0), &["start"], &[(1, 10), (2, 30)]),
        rec(1, (10, 0, 0), &[], &[(0, 10), (3, 50), (4, 12)]),
        rec(2, (0, 30, 0), &[], &[(0, 30), (5, 50)]),
        rec(3, (10, 0, 50), &[], &[(1, 50), (6, 15)]),
        rec(4, (20, 5, 0), &[], &[(1, 12), (7, 60)]),
        rec(5, (0, 30, 50), &[], &[(2, 50), (6, 40)]),
        rec(6, (20, 0, 50), &["goal"], &[(3, 15), (5, 40), (7, 6)]),
        rec(7, (20, 5, 50), &[], &[(4, 60), (6, 6)]),
    ];
    let (g, rooms) = create_graph_from_json(&recs).unwrap();
    let s = rooms.lookup(&"start".to_string()).unwrap();
    let t = rooms.lookup(&"goal".to_string()).unwrap();
    for a in 0..recs.len() {
        for b in 0..recs.len() {
            let path = find_path(&g, a, b).unwrap().unwrap();
            assert_eq!(Some(path_cost(&recs, &path)), cheapest(&recs, a, b));
        }
    }
    let path = find_path(&g, s, t).unwrap().unwrap();
    assert_eq!(path_cost(&recs, &path), 75);
    assert_eq!(path, vec![c(0, 0, 0), c(10, 0, 0), c(10, 0, 50), c(20, 0, 50)]);
}

#[test]
fn heuristic_is_planar_distance_plus_height() {
    assert_eq!(c(0, 0, 0).euc_dist(&c(3, 4, 10)), 15);
    assert_eq!(c(0, 0, 50).euc_dist(&c(0, 0, 0)), 50);
    // the planar part is rounded down
    assert_eq!(c(0, 0, 0).euc_dist(&c(1, 1, 0)), 1);
    assert_eq!(c(-5, 7, 3).euc_dist(&c(-5, 7, 3)), 0);
    let far = c(i32::MIN, i32::MIN, i32::MIN).euc_dist(&c(i32::MAX, i32::MAX, i32::MAX));
    assert_eq!(far, 6074000998 + 4294967295);
}

#[test]
fn graph_built_by_hand() {
    let mut g = NavGraph::new();
    let a = g.add_waypoint(c(0, 0, 0));
    let b = g.add_waypoint(c(3, 4, 0));
    let d = g.add_waypoint(c(3, 4, 50));
    g.add_connection(a, b, 5);
    g.add_connection(b, d, 50);
    assert_eq!(g.node_count(), 3);
    assert_eq!(find_path(&g, d, a), Ok(Some(vec![c(3, 4, 50), c(3, 4, 0), c(0, 0, 0)])));
    let mut rooms = RoomIndex::new();
    rooms.insert("lab".to_string(), d);
    rooms.insert("lab".to_string(), b);
    assert_eq!(rooms.lookup(&"lab".to_string()), Some(b));
}
