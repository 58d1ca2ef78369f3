use graph_library::geometry::Coords;
use graph_library::graph::NavGraph;
use graph_library::loader::{create_graph_from_json, Adj, LoadError, NodeRecord};
use graph_library::rooms::RoomIndex;
use graph_library::search::{route_between_rooms, SearchError};

fn rec(id: u64, pos: (i32, i32, i32), names: &[&str], conns: &[(u64, u64)]) -> NodeRecord {
    NodeRecord {
        id,
        coordinates: Coords { x: pos.0, y: pos.1, z: pos.2 },
        room_names: names.iter().map(|s| s.to_string()).collect(),
        connections: conns.iter().map(|&(target, cost)| Adj { target, cost }).collect(),
    }
}

const FLOOR_HEIGHT: i32 = 50;

/// A four-storey building: on each floor a corridor of five junctions with
/// a room off each, a stairwell at the west end and an elevator at the east
/// end. Rooms are named "E<floor><n>", so that the second character is the
/// floor digit.
fn building() -> Vec<NodeRecord> {
    let mut out: Vec<NodeRecord> = Vec::new();
    for floor in 0..4u64 {
        let z = floor as i32 * FLOOR_HEIGHT;
        for k in 0..5u64 {
            let junction = floor * 100 + k;
            let room = floor * 100 + 50 + k;
            let x = k as i32 * 10;
            let mut conns: Vec<(u64, u64)> = vec![(room, 5)];
            if k > 0 {
                conns.push((junction - 1, 10));
            }
            if k < 4 {
                conns.push((junction + 1, 10));
            }
            // stairs at the west end, elevator at the east end
            if k == 0 || k == 4 {
                let climb = if k == 0 { 60 } else { 55 };
                if floor > 0 {
                    conns.push((junction - 100, climb));
                }
                if floor < 3 {
                    conns.push((junction + 100, climb));
                }
            }
            out.push(rec(junction, (x, 0, z), &[], &conns));
            let name = format!("E{}{:02}", floor, k + 1);
            out.push(rec(room, (x, 5, z), &[name.as_str()], &[(junction, 5)]));
        }
    }
    out
}

struct Lafferre {
    room_names: Vec<String>,
    graph: NavGraph,
    rooms: RoomIndex,
}

impl Lafferre {
    fn new() -> Self {
        let records = building();
        let room_names: Vec<String> = records
            .iter()
            .flat_map(|r| r.room_names.clone())
            .filter(|name| !name.trim().is_empty())
            .collect();
        let (graph, rooms) = create_graph_from_json(&records).expect("building loads");
        Lafferre { room_names, graph, rooms }
    }

    /// All room names whose second character is the floor digit.
    fn get_nth_floor_rooms(&self, floor_num: u8) -> Vec<String> {
        let target = (b'0' + floor_num) as char;
        self.room_names
            .iter()
            .filter(|name| name.chars().nth(1) == Some(target))
            .cloned()
            .collect()
    }
}

fn all_pairs_routed(src_rooms: &[String], dst_rooms: &[String], skip_same: bool) -> usize {
    let b = Lafferre::new();
    let mut count = 0;
    for src in src_rooms {
        for dst in dst_rooms {
            if skip_same && src == dst {
                continue;
            }
            let result = route_between_rooms(&b.graph, &b.rooms, src, dst);
            count += 1;
            assert!(matches!(result, Ok(Some(_))), "No path found between {} and {}", src, dst);
        }
    }
    count
}

#[test]
fn b_to_tf() {
    let b = Lafferre::new();
    let basement_rooms = b.get_nth_floor_rooms(0);
    let third_floor_rooms = b.get_nth_floor_rooms(3);
    let count = all_pairs_routed(&basement_rooms, &third_floor_rooms, false);
    assert_eq!(count, 25);
}

#[test]
fn ff_to_sf() {
    let b = Lafferre::new();
    let first_floor_rooms = b.get_nth_floor_rooms(1);
    let second_floor_rooms = b.get_nth_floor_rooms(2);
    let count = all_pairs_routed(&first_floor_rooms, &second_floor_rooms, false);
    assert_eq!(count, 25);
}

#[test]
fn ff_to_ff() {
    let b = Lafferre::new();
    let first_floor_rooms = b.get_nth_floor_rooms(1);
    let count = all_pairs_routed(&first_floor_rooms, &first_floor_rooms, true);
    assert_eq!(count, 20);
}

#[test]
fn tf_to_b() {
    let b = Lafferre::new();
    let basement_rooms = b.get_nth_floor_rooms(0);
    let third_floor_rooms = b.get_nth_floor_rooms(3);
    let count = all_pairs_routed(&third_floor_rooms, &basement_rooms, false);
    assert_eq!(count, 25);
}

#[test]
fn api_resp() {
    // the positions handed back for a query, in walking order
    let b = Lafferre::new();
    let path = route_between_rooms(&b.graph, &b.rooms, &"E101".to_string(), &"E102".to_string())
        .unwrap()
        .unwrap();
    assert_eq!(
        path,
        vec![
            Coords { x: 0, y: 5, z: 50 },
            Coords { x: 0, y: 0, z: 50 },
            Coords { x: 10, y: 0, z: 50 },
            Coords { x: 10, y: 5, z: 50 },
        ]
    );
}

#[test]
fn stair_elev() {
    // from the east end of the basement to the east end of the third floor
    // the elevator (east) is cheaper than walking to the stairs (west)
    let b = Lafferre::new();
    let path = route_between_rooms(&b.graph, &b.rooms, &"E005".to_string(), &"E305".to_string())
        .unwrap()
        .unwrap();
    assert_eq!(path.len(), 6);
    assert!(path.iter().all(|c| c.x == 40));
}

#[test]
fn bad_input() {
    let b = Lafferre::new();
    let r = route_between_rooms(&b.graph, &b.rooms, &"E101".to_string(), &"Z999".to_string());
    assert_eq!(r, Err(SearchError::UnknownWaypoint));
    let r = route_between_rooms(&b.graph, &b.rooms, &"".to_string(), &"E101".to_string());
    assert_eq!(r, Err(SearchError::UnknownWaypoint));
    let r = route_between_rooms(&b.graph, &b.rooms, &"e101".to_string(), &"E101".to_string());
    assert_eq!(r, Err(SearchError::UnknownWaypoint));
}

#[test]
fn mult_req() {
    // one graph serves many queries, each with the same answer
    let b = Lafferre::new();
    let first = route_between_rooms(&b.graph, &b.rooms, &"E001".to_string(), &"E304".to_string());
    for _ in 0..20 {
        let again =
            route_between_rooms(&b.graph, &b.rooms, &"E001".to_string(), &"E304".to_string());
        assert_eq!(again, first);
        let other =
            route_between_rooms(&b.graph, &b.rooms, &"E203".to_string(), &"E102".to_string());
        assert!(matches!(other, Ok(Some(_))));
    }
}

#[test]
fn graph_create() {
    let records = building();
    let (graph, rooms) = create_graph_from_json(&records).unwrap();
    assert_eq!(graph.node_count(), 40);
    assert_eq!(rooms.lookup(&"E001".to_string()), Some(1));
    assert_eq!(rooms.lookup(&"E305".to_string()), Some(39));
    assert_eq!(graph.position(39), Some(Coords { x: 40, y: 5, z: 150 }));
    assert_eq!(graph.position(40), None);
}

#[test]
fn crash_test() {
    // every pair of the building's 20 rooms
    let b = Lafferre::new();
    let all = b.room_names.clone();
    assert!(all.len() >= 20);
    let count = all_pairs_routed(&all, &all, false);
    assert_eq!(count, all.len() * all.len());
}

#[test]
fn same_room() {
    let b = Lafferre::new();
    let path = route_between_rooms(&b.graph, &b.rooms, &"E203".to_string(), &"E203".to_string());
    assert_eq!(path, Ok(Some(vec![Coords { x: 20, y: 5, z: 100 }])));
}

#[test]
fn malformed_documents_are_refused() {
    // duplicate id
    let recs = vec![rec(1, (0, 0, 0), &[], &[]), rec(1, (1, 0, 0), &[], &[])];
    assert!(matches!(create_graph_from_json(&recs), Err(LoadError::MalformedInput)));
    // unknown target, also from the dropped direction
    let recs = vec![rec(1, (0, 0, 0), &[], &[(7, 3)])];
    assert!(matches!(create_graph_from_json(&recs), Err(LoadError::MalformedInput)));
    let recs = vec![rec(9, (0, 0, 0), &[], &[(2, 3)])];
    assert!(matches!(create_graph_from_json(&recs), Err(LoadError::MalformedInput)));
    // zero cost
    let recs = vec![rec(1, (0, 0, 0), &[], &[(2, 0)]), rec(2, (0, 0, 0), &[], &[(1, 0)])];
    assert!(matches!(create_graph_from_json(&recs), Err(LoadError::MalformedInput)));
    // an empty document is a valid, empty graph
    let (g, _) = create_graph_from_json(&Vec::new()).unwrap();
    assert_eq!(g.node_count(), 0);
}
