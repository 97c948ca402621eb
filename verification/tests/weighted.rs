use petgraph::algo::{astar, dijkstra};
use petgraph::graph::NodeIndex;
use route_finder::road_network::{Config, Road, RoadNetwork};

fn road(source: usize, target: usize, distance_bits: u32) -> Road {
    Road { source, target, distance_bits }
}

fn build(roads: &[(usize, usize, f32)]) -> RoadNetwork {
    let mut network = RoadNetwork::new();
    for (source, target, distance) in roads {
        let added = network.try_add_road(Road {
            source: *source,
            target: *target,
            distance_bits: distance.to_bits(),
        });
        assert!(added.is_some());
    }
    network
}

fn by_dijkstra(net: &RoadNetwork, a: usize, b: usize) -> Option<f32> {
    let (s, e) = net.endpoints(a, b)?;
    let goal = NodeIndex::new(e);
    let scores = dijkstra(net.graph(), NodeIndex::new(s), Some(goal), |edge| {
        f32::from_bits(*edge.weight())
    });
    scores.get(&goal).cloned()
}

fn by_astar(net: &RoadNetwork, a: usize, b: usize) -> Option<f32> {
    let (s, e) = net.endpoints(a, b)?;
    let goal = NodeIndex::new(e);
    astar(
        net.graph(),
        NodeIndex::new(s),
        |n| n == goal,
        |edge| f32::from_bits(*edge.weight()),
        |_| 0.0,
    )
    .map(|(cost, _)| cost)
}

#[test]
fn indices_are_dense_and_stable() {
    let mut network = RoadNetwork::new();
    assert_eq!(network.node_count(), 0);
    assert_eq!(network.add_road(road(10, 20, 1)), (0, 1));
    assert_eq!(network.add_road(road(20, 30, 2)), (1, 2));
    assert_eq!(network.add_road(road(30, 10, 3)), (2, 0));
    assert_eq!(network.add_road(road(7, 7, 4)), (3, 3));
    assert_eq!(network.node_count(), 4);
    assert_eq!(network.road_count(), 4);
    assert_eq!(network.road(0), Some((0, 1, 1)));
    assert_eq!(network.road(2), Some((2, 0, 3)));
    assert_eq!(network.road(3), Some((3, 3, 4)));
    assert_eq!(network.road(4), None);
    assert_eq!(network.index_of(10), Some(0));
    assert_eq!(network.index_of(20), Some(1));
    assert_eq!(network.index_of(30), Some(2));
    assert_eq!(network.index_of(7), Some(3));
    assert_eq!(network.index_of(0), None);
    assert_eq!(network.try_add_road(road(20, 8, 5)), Some((1, 4)));
    assert_eq!(network.road(4), Some((1, 4, 5)));
    assert_eq!(network.index_of(8), Some(4));
    assert_eq!(network.external_id(0), Some(10));
    assert_eq!(network.external_id(2), Some(30));
    assert_eq!(network.external_id(5), None);
    assert_eq!(network.road(5), None);
    assert_eq!(network.external_id(4), Some(8));
}

#[test]
fn unknown_ids_have_no_endpoints() {
    let mut network = RoadNetwork::new();
    assert_eq!(network.endpoints(1, 2), None);
    network.add_road(road(1, 2, 0));
    assert_eq!(network.endpoints(1, 2), Some((0, 1)));
    assert_eq!(network.endpoints(2, 1), Some((1, 0)));
    assert_eq!(network.endpoints(1, 1), Some((0, 0)));
    assert_eq!(network.endpoints(1, 3), None);
    assert_eq!(network.endpoints(3, 1), None);
    assert_eq!(network.endpoints(3, 4), None);
}

#[test]
fn weighted_scenario() {
    let network = build(&[(1, 2, 1.0), (2, 3, 1.0), (1, 3, 5.0)]);
    assert_eq!(by_dijkstra(&network, 1, 3), Some(2.0));
    assert_eq!(by_astar(&network, 1, 3), Some(2.0));
    assert_eq!(by_dijkstra(&network, 3, 1), Some(2.0));
    assert_eq!(by_dijkstra(&network, 1, 4), None);
    assert_eq!(by_astar(&network, 4, 1), None);
}

#[test]
fn astar_agrees_with_dijkstra() {
    let network = build(&[
        (1, 2, 2.5),
        (2, 3, 1.5),
        (3, 4, 4.0),
        (1, 4, 9.0),
        (5, 6, 1.0),
        (2, 4, 7.0),
    ]);
    for a in 1..=6 {
        for b in 1..=6 {
            let d = by_dijkstra(&network, a, b);
            let s = by_astar(&network, a, b);
            match (d, s) {
                (Some(x), Some(y)) => assert!((x - y).abs() < 1e-6),
                (None, None) => {}
                _ => panic!("the two queries disagree on {} and {}", a, b),
            }
        }
    }
    assert_eq!(by_dijkstra(&network, 1, 4), Some(8.0));
    assert_eq!(by_dijkstra(&network, 1, 5), None);
}

#[test]
fn parallel_roads_are_all_kept() {
    let network = build(&[(1, 2, 5.0), (1, 2, 3.0), (1, 2, 4.0)]);
    assert_eq!(network.graph().edge_count(), 3);
    assert!(!network.graph().is_directed());
    assert_eq!(network.node_count(), 2);
    assert_eq!(network.road_count(), 3);
    assert_eq!(network.road(0), Some((0, 1, 5.0f32.to_bits())));
    assert_eq!(network.road(1), Some((0, 1, 3.0f32.to_bits())));
    assert_eq!(network.road(2), Some((0, 1, 4.0f32.to_bits())));
    assert_eq!(by_dijkstra(&network, 1, 2), Some(3.0));
    assert_eq!(by_astar(&network, 2, 1), Some(3.0));
}

#[test]
fn config_holds_delimiter_and_path() {
    let config = Config { delimiter: b',', data_path: "roads.csv".to_string() };
    assert_eq!(config.delimiter, 44);
    assert_eq!(config.data_path, "roads.csv");
}

#[test]
fn load_roads_adds_every_record_in_order() {
    let mut network = RoadNetwork::new();
    network.add_road(road(5, 6, 9));
    let records = vec![road(6, 7, 1), road(5, 7, 2), road(8, 5, 3)];
    assert_eq!(network.load_roads(&records), 3);
    assert_eq!(network.node_count(), 4);
    assert_eq!(network.road_count(), 4);
    assert_eq!(network.external_id(0), Some(5));
    assert_eq!(network.external_id(1), Some(6));
    assert_eq!(network.external_id(2), Some(7));
    assert_eq!(network.external_id(3), Some(8));
    assert_eq!(network.road(0), Some((0, 1, 9)));
    assert_eq!(network.road(1), Some((1, 2, 1)));
    assert_eq!(network.road(2), Some((0, 2, 2)));
    assert_eq!(network.road(3), Some((3, 0, 3)));
    assert_eq!(network.load_roads(&Vec::new()), 0);
    assert_eq!(network.road_count(), 4);
}

#[test]
fn room_is_asked_only_for_new_ends() {
    let mut network = RoadNetwork::new();
    assert_eq!(network.try_add_road(road(1, 1, 0)), Some((0, 0)));
    assert_eq!(network.node_count(), 1);
    assert_eq!(network.try_add_road(road(1, 2, 0)), Some((0, 1)));
    assert_eq!(network.try_add_road(road(2, 1, 0)), Some((1, 0)));
    assert_eq!(network.node_count(), 2);
    assert_eq!(network.road_count(), 3);
    assert_eq!(network.graph().node_count(), 2);
    assert_eq!(network.graph().edge_count(), 3);
}
