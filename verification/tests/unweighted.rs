use route_finder::edge_list::{parse_edge_list, push_edge, GraphError};
use route_finder::graph::Graph;
use route_finder::snapshot::{read_snapshot, write_snapshot, SnapshotError};
use std::collections::HashMap;

fn graph_of(entries: &[(u32, &[u32])]) -> Graph {
    let mut table: HashMap<u32, Vec<u32>> = HashMap::new();
    for (node, successors) in entries {
        table.insert(*node, successors.to_vec());
    }
    let mut graph = Graph::new("").unwrap();
    graph.set_adjacency_list(table);
    graph
}

fn sample() -> Graph {
    graph_of(&[(1, &[2, 3]), (2, &[4, 5]), (3, &[6]), (5, &[6])])
}

#[test]
fn test_bfs_shortest_path() {
    let graph = graph_of(&[
        (1, &[2, 3]),
        (2, &[4, 5]),
        (3, &[6]),
        (4, &[]),
        (5, &[6]),
        (6, &[]),
    ]);

    let start_node = 1;
    let end_node = 6;
    let expected_path = vec![1, 3, 6];
    assert_eq!(graph.bfs_shortest_path(start_node, end_node), Some(expected_path));

    let start_node = 2;
    let end_node = 6;
    let expected_path = vec![2, 5, 6];
    assert_eq!(graph.bfs_shortest_path(start_node, end_node), Some(expected_path));

    let start_node = 4;
    let end_node = 6;
    assert_eq!(graph.bfs_shortest_path(start_node, end_node), None);
}

#[test]
fn bfs_on_map_without_sink_entries() {
    let graph = sample();
    assert_eq!(graph.bfs_shortest_path(1, 6), Some(vec![1, 3, 6]));
    assert_eq!(graph.bfs_shortest_path(2, 6), Some(vec![2, 5, 6]));
    assert_eq!(graph.bfs_shortest_path(4, 6), None);
}

#[test]
fn start_equals_goal_gives_single_node() {
    let graph = sample();
    assert_eq!(graph.bfs_shortest_path(1, 1), Some(vec![1]));
    assert_eq!(graph.dfs_path(1, 1), Some(vec![1]));
    assert_eq!(graph.bfs_shortest_path(99, 99), Some(vec![99]));
    assert_eq!(graph.dfs_path(99, 99), Some(vec![99]));
    let empty = Graph::new("").unwrap();
    assert_eq!(empty.bfs_shortest_path(0, 0), Some(vec![0]));
    assert_eq!(empty.dfs_path(0, 0), Some(vec![0]));
}

#[test]
fn unreachable_goal_gives_none() {
    let graph = sample();
    assert_eq!(graph.bfs_shortest_path(6, 1), None);
    assert_eq!(graph.dfs_path(6, 1), None);
    assert_eq!(graph.bfs_shortest_path(3, 5), None);
    assert_eq!(graph.dfs_path(3, 5), None);
    assert_eq!(graph.bfs_shortest_path(1, 7), None);
    assert_eq!(graph.dfs_path(1, 7), None);
}

#[test]
fn dfs_expands_last_pushed_first() {
    let graph = sample();
    assert_eq!(graph.dfs_path(1, 6), Some(vec![1, 3, 6]));
    assert_eq!(graph.dfs_path(1, 4), Some(vec![1, 2, 4]));
    assert_eq!(graph.dfs_path(2, 6), Some(vec![2, 5, 6]));
}

#[test]
fn bfs_is_not_longer_than_dfs() {
    let graph = graph_of(&[(1, &[2, 3]), (2, &[5]), (3, &[4]), (4, &[5])]);
    let bfs = graph.bfs_shortest_path(1, 5).unwrap();
    let dfs = graph.dfs_path(1, 5).unwrap();
    assert_eq!(bfs, vec![1, 2, 5]);
    assert_eq!(dfs, vec![1, 3, 4, 5]);
    assert!(bfs.len() <= dfs.len());
}

#[test]
fn bfs_prefers_first_listed_successor() {
    let graph = graph_of(&[(1, &[3, 2]), (2, &[4]), (3, &[4])]);
    assert_eq!(graph.bfs_shortest_path(1, 4), Some(vec![1, 3, 4]));
    let graph = graph_of(&[(1, &[2, 3]), (2, &[4]), (3, &[4])]);
    assert_eq!(graph.bfs_shortest_path(1, 4), Some(vec![1, 2, 4]));
}

#[test]
fn cycles_self_loops_and_duplicates_are_tolerated() {
    let graph = graph_of(&[(1, &[1, 2, 2]), (2, &[1, 3, 3]), (3, &[1])]);
    assert_eq!(graph.bfs_shortest_path(1, 3), Some(vec![1, 2, 3]));
    assert_eq!(graph.dfs_path(1, 3), Some(vec![1, 2, 3]));
    assert_eq!(graph.bfs_shortest_path(3, 2), Some(vec![3, 1, 2]));
    assert_eq!(graph.bfs_shortest_path(1, 4), None);
    assert_eq!(graph.dfs_path(1, 4), None);
}

#[test]
fn edge_list_with_comment_builds_graph() {
    let graph = Graph::new("# header\n1\t2\n1\t3\n2\t4\n").unwrap();
    let table = graph.get_adjacency_list();
    assert_eq!(table.len(), 2);
    assert_eq!(table.get(&1), Some(&vec![2, 3]));
    assert_eq!(table.get(&2), Some(&vec![4]));
    assert_eq!(table.get(&4), None);
    assert_eq!(graph.bfs_shortest_path(1, 4), Some(vec![1, 2, 4]));
}

#[test]
fn malformed_node_id_rejects_whole_text() {
    let result = Graph::new("# header\n1\t2\nabc\tx\n");
    assert!(matches!(result, Err(GraphError::InvalidNodeId)));
    assert_eq!(
        parse_edge_list("# header\n1\t2\nabc\tx\n".as_bytes()),
        Err(GraphError::InvalidNodeId)
    );
    assert!(matches!(Graph::new("1\t2\n3\t\n"), Err(GraphError::InvalidNodeId)));
    assert!(matches!(Graph::new("\t2\n"), Err(GraphError::InvalidNodeId)));
    assert!(matches!(Graph::new("1\t-2\n"), Err(GraphError::InvalidNodeId)));
    assert!(matches!(Graph::new("1\t 2\n"), Err(GraphError::InvalidNodeId)));
    assert!(matches!(Graph::new("1\t+\n"), Err(GraphError::InvalidNodeId)));
    assert!(matches!(Graph::new("1\t2\r"), Err(GraphError::InvalidNodeId)));
}

#[test]
fn error_message_names_the_node_id() {
    assert_eq!(GraphError::InvalidNodeId.message(), "Invalid node id");
}

#[test]
fn lines_without_two_fields_are_passed_over() {
    let table = parse_edge_list("1\t2\t3\nhello\n\n7\n1\t5\nabc\n".as_bytes()).unwrap();
    assert_eq!(table.len(), 1);
    assert_eq!(table.get(&1), Some(&vec![5]));
}

#[test]
fn node_id_limits() {
    let table = parse_edge_list("0\t4294967295\n".as_bytes()).unwrap();
    assert_eq!(table.get(&0), Some(&vec![4294967295]));
    assert_eq!(
        parse_edge_list("0\t4294967296\n".as_bytes()),
        Err(GraphError::InvalidNodeId)
    );
    assert_eq!(
        parse_edge_list("99999999999999999999\t1\n".as_bytes()),
        Err(GraphError::InvalidNodeId)
    );
    let table = parse_edge_list("+7\t0000000000000012\n".as_bytes()).unwrap();
    assert_eq!(table.get(&7), Some(&vec![12]));
}

#[test]
fn line_endings() {
    let table = parse_edge_list("1\t2\r\n3\t4".as_bytes()).unwrap();
    assert_eq!(table.get(&1), Some(&vec![2]));
    assert_eq!(table.get(&3), Some(&vec![4]));
    assert_eq!(parse_edge_list("".as_bytes()).unwrap().len(), 0);
    assert_eq!(parse_edge_list("\n\n".as_bytes()).unwrap().len(), 0);
}

#[test]
fn duplicate_edges_are_kept_in_order() {
    let table = parse_edge_list("5\t1\n5\t1\n2\t9\n5\t0\n".as_bytes()).unwrap();
    assert_eq!(table.get(&5), Some(&vec![1, 1, 0]));
    assert_eq!(table.get(&2), Some(&vec![9]));
}

#[test]
fn push_edge_appends() {
    let mut table: HashMap<u32, Vec<u32>> = HashMap::new();
    push_edge(&mut table, 1, 2);
    push_edge(&mut table, 1, 3);
    push_edge(&mut table, 2, 1);
    assert_eq!(table.get(&1), Some(&vec![2, 3]));
    assert_eq!(table.get(&2), Some(&vec![1]));
    assert_eq!(table.len(), 2);
}

#[test]
fn set_adjacency_list_replaces_everything() {
    let mut graph = sample();
    let mut table: HashMap<u32, Vec<u32>> = HashMap::new();
    table.insert(10, vec![11]);
    graph.set_adjacency_list(table.clone());
    assert_eq!(graph.get_adjacency_list(), &table);
    assert_eq!(graph.bfs_shortest_path(1, 6), None);
    assert_eq!(graph.bfs_shortest_path(10, 11), Some(vec![10, 11]));
}

#[test]
fn snapshot_round_trip() {
    let graph = sample();
    let text = graph.export_snapshot().unwrap();
    let mut other = Graph::new("").unwrap();
    assert_eq!(other.import_snapshot(&text), Ok(()));
    assert_eq!(other.get_adjacency_list(), graph.get_adjacency_list());
    assert_eq!(other.bfs_shortest_path(1, 6), Some(vec![1, 3, 6]));

    let empty = Graph::new("").unwrap();
    assert!(empty.export_snapshot().is_ok());
    let text = empty.export_snapshot().unwrap();
    assert_eq!(text, "{}");
    assert_eq!(read_snapshot(&text).unwrap().len(), 0);
}

#[test]
fn snapshot_document_shape() {
    let mut table: HashMap<u32, Vec<u32>> = HashMap::new();
    table.insert(1, vec![2, 3]);
    assert_eq!(write_snapshot(&table).unwrap(), "{\"1\":[2,3]}");
    let read = read_snapshot("{ \"4\": [5, 5], \"6\": [] }").unwrap();
    assert_eq!(read.len(), 2);
    assert_eq!(read.get(&4), Some(&vec![5, 5]));
    assert_eq!(read.get(&6), Some(&vec![]));
}

#[test]
fn unreadable_snapshot_leaves_graph_untouched() {
    let mut graph = sample();
    let before = graph.get_adjacency_list().clone();
    assert_eq!(graph.import_snapshot("{\"1\": [2,"), Err(SnapshotError::Malformed));
    assert_eq!(graph.import_snapshot("{\"x\": [2]}"), Err(SnapshotError::Malformed));
    assert_eq!(graph.import_snapshot("[1, 2]"), Err(SnapshotError::Malformed));
    assert_eq!(graph.get_adjacency_list(), &before);
    assert_eq!(read_snapshot("not json"), Err(SnapshotError::Malformed));
}

#[test]
fn dfs_follows_the_stack() {
    let graph = graph_of(&[(1, &[2, 3]), (2, &[5]), (3, &[4]), (4, &[5])]);
    assert_eq!(graph.dfs_path(1, 5), Some(vec![1, 3, 4, 5]));
    assert_eq!(graph.dfs_path(1, 2), Some(vec![1, 2]));
    let graph = graph_of(&[(1, &[2, 3, 4]), (4, &[3]), (3, &[2]), (2, &[9])]);
    assert_eq!(graph.dfs_path(1, 9), Some(vec![1, 2, 9]));
    assert_eq!(graph.dfs_path(1, 3), Some(vec![1, 3]));
    let graph = graph_of(&[(1, &[2, 3]), (3, &[7, 8]), (8, &[2, 9]), (7, &[9])]);
    assert_eq!(graph.dfs_path(1, 9), Some(vec![1, 3, 8, 9]));
}
