use agv_scheduler::domain::map::UNITS_PER_METRE;
use agv_scheduler::domain::{Edge, Location, NodeId, RoadMap};
use agv_scheduler::engine::{AStarPathfinder, Pathfinder};
use agv_scheduler::service::build_grid_map;

fn edge(from: u32, to: u32, cost: u64) -> Edge {
    Edge {
        from: NodeId(from),
        to: NodeId(to),
        cost,
    }
}

#[test]
fn the_way_to_itself_is_one_node() {
    let map = RoadMap::new();
    let p = AStarPathfinder
        .find_path(&map, NodeId(5), NodeId(5))
        .unwrap();
    assert_eq!(p.to_vec(), vec![NodeId(5)]);
}

#[test]
fn there_is_no_way_to_a_node_without_coordinates() {
    let mut map = RoadMap::new();
    map.add_node(NodeId(1), Location::at_node(NodeId(1), 0, 0));
    map.add_edge(edge(1, 2, 10));
    assert!(AStarPathfinder
        .find_path(&map, NodeId(1), NodeId(2))
        .is_none());
    assert!(AStarPathfinder
        .find_path(&map, NodeId(8), NodeId(1))
        .is_none());
}

#[test]
fn edges_are_one_way() {
    let mut map = RoadMap::new();
    map.add_node(NodeId(1), Location::at_node(NodeId(1), 0, 0));
    map.add_node(NodeId(2), Location::at_node(NodeId(2), 10, 0));
    map.add_edge(edge(1, 2, 10));
    assert_eq!(
        AStarPathfinder
            .find_path(&map, NodeId(1), NodeId(2))
            .unwrap()
            .to_vec(),
        vec![NodeId(1), NodeId(2)]
    );
    assert!(AStarPathfinder
        .find_path(&map, NodeId(2), NodeId(1))
        .is_none());
}

#[test]
fn the_cheaper_way_around_is_taken() {
    let mut map = RoadMap::new();
    for (n, x, y) in [(1, 0, 0), (2, 10, 0), (3, 5, 5)] {
        map.add_node(NodeId(n), Location::at_node(NodeId(n), x, y));
    }
    map.add_edge(edge(1, 2, 100));
    map.add_edge(edge(1, 3, 20));
    map.add_edge(edge(3, 2, 20));
    assert_eq!(
        AStarPathfinder
            .find_path(&map, NodeId(1), NodeId(2))
            .unwrap()
            .to_vec(),
        vec![NodeId(1), NodeId(3), NodeId(2)]
    );
}

#[test]
fn a_detour_that_is_cheaper_than_its_length_is_taken() {
    let mut map = RoadMap::new();
    for (n, x) in [(0, 0), (1, 100), (2, 1)] {
        map.add_node(NodeId(n), Location::at_node(NodeId(n), x * UNITS_PER_METRE, 0));
    }
    assert!(map.covers_distances());
    let unit = UNITS_PER_METRE as u64;
    map.add_edge(edge(0, 2, 5 * unit));
    assert!(map.covers_distances());
    map.add_edge(edge(0, 1, unit));
    map.add_edge(edge(1, 2, unit));
    assert!(!map.covers_distances());
    assert_eq!(
        AStarPathfinder
            .find_path(&map, NodeId(0), NodeId(2))
            .unwrap()
            .to_vec(),
        vec![NodeId(0), NodeId(1), NodeId(2)]
    );
}

#[test]
fn ways_on_a_grid_are_shortest() {
    let map = build_grid_map(12, 7);
    for a in 0..84u32 {
        let b = (a * 37 + 11) % 84;
        let p = AStarPathfinder
            .find_path(&map, NodeId(a), NodeId(b))
            .unwrap()
            .to_vec();
        let dx = (a % 12).abs_diff(b % 12);
        let dy = (a / 12).abs_diff(b / 12);
        assert_eq!(p.len() as u32, dx + dy + 1);
        assert_eq!(p[0], NodeId(a));
        assert_eq!(p[p.len() - 1], NodeId(b));
        let mut once = p.clone();
        once.sort();
        once.dedup();
        assert_eq!(once.len(), p.len());
        for w in p.windows(2) {
            let out = map.edges_from(w[0]).unwrap().as_slice();
            assert!(out.iter().any(|e| e.to == w[1]));
        }
    }
}
