use graph_metrics::graph::Graph;

fn s(x: &str) -> String {
    x.to_string()
}

fn path_graph() -> Graph {
    let mut graph = Graph::new();
    graph.add_edge(s("A"), s("B"));
    graph.add_edge(s("B"), s("C"));
    graph.add_edge(s("C"), s("D"));
    graph
}

#[test]
fn test_add_edge() {
    let mut graph = Graph::new();
    graph.add_edge("A".to_string(), "B".to_string());
    graph.add_edge("B".to_string(), "C".to_string());

    assert_eq!(graph.node_count(), 3);
    assert_eq!(graph.edge_count(), 2);
}

#[test]
fn test_bfs() {
    let mut graph = Graph::new();
    graph.add_edge("A".to_string(), "B".to_string());
    graph.add_edge("B".to_string(), "C".to_string());
    graph.add_edge("C".to_string(), "D".to_string());

    let distances = graph.bfs(&"A".to_string());
    assert_eq!(*distances.get("A").unwrap(), 0);
    assert_eq!(*distances.get("B").unwrap(), 1);
    assert_eq!(*distances.get("C").unwrap(), 2);
    assert_eq!(*distances.get("D").unwrap(), 3);
}

#[test]
fn empty_graph_has_no_nodes_or_edges() {
    let graph = Graph::new();
    assert_eq!(graph.node_count(), 0);
    assert_eq!(graph.edge_count(), 0);
    assert_eq!(graph.degree_distribution().len(), 0);
}

#[test]
fn adding_an_edge_twice_changes_nothing() {
    let mut graph = Graph::new();
    graph.add_edge(s("A"), s("B"));
    graph.add_edge(s("B"), s("C"));
    let nodes = graph.node_count();
    let edges = graph.edge_count();
    graph.add_edge(s("A"), s("B"));
    graph.add_edge(s("B"), s("A"));
    assert_eq!(graph.node_count(), nodes);
    assert_eq!(graph.edge_count(), edges);
    let degrees = graph.degree_distribution();
    assert_eq!(*degrees.get("A").unwrap(), 1);
    assert_eq!(*degrees.get("B").unwrap(), 2);
    assert_eq!(*degrees.get("C").unwrap(), 1);
}

#[test]
fn neighbours_are_mutual() {
    let mut graph = Graph::new();
    graph.add_edge(s("A"), s("B"));
    let from_a = graph.bfs(&s("A"));
    let from_b = graph.bfs(&s("B"));
    assert_eq!(*from_a.get("B").unwrap(), 1);
    assert_eq!(*from_b.get("A").unwrap(), 1);
}

#[test]
fn edge_count_ignores_order_and_repeats() {
    let mut graph = Graph::new();
    graph.add_edge(s("B"), s("A"));
    graph.add_edge(s("C"), s("A"));
    graph.add_edge(s("A"), s("B"));
    graph.add_edge(s("A"), s("C"));
    graph.add_edge(s("C"), s("B"));
    assert_eq!(graph.edge_count(), 3);
    assert_eq!(graph.node_count(), 3);
}

#[test]
fn self_loop_is_kept_as_one_neighbour() {
    let mut graph = Graph::new();
    graph.add_edge(s("X"), s("X"));
    assert_eq!(graph.node_count(), 1);
    assert_eq!(graph.edge_count(), 0);
    assert_eq!(*graph.degree_distribution().get("X").unwrap(), 1);
    graph.add_edge(s("X"), s("Y"));
    assert_eq!(graph.edge_count(), 1);
    assert_eq!(*graph.degree_distribution().get("X").unwrap(), 2);
}

#[test]
fn bfs_from_unknown_start_reaches_itself_only() {
    let graph = path_graph();
    let distances = graph.bfs(&s("Z"));
    assert_eq!(distances.len(), 1);
    assert_eq!(*distances.get("Z").unwrap(), 0);
}

#[test]
fn bfs_leaves_out_unreachable_nodes() {
    let mut graph = path_graph();
    graph.add_edge(s("P"), s("Q"));
    let distances = graph.bfs(&s("A"));
    assert_eq!(distances.len(), 4);
    assert!(distances.get("P").is_none());
    assert!(distances.get("Q").is_none());
}

#[test]
fn bfs_takes_the_shorter_way_round_a_cycle() {
    let mut graph = path_graph();
    graph.add_edge(s("D"), s("E"));
    graph.add_edge(s("E"), s("A"));
    let distances = graph.bfs(&s("A"));
    assert_eq!(*distances.get("A").unwrap(), 0);
    assert_eq!(*distances.get("B").unwrap(), 1);
    assert_eq!(*distances.get("E").unwrap(), 1);
    assert_eq!(*distances.get("C").unwrap(), 2);
    assert_eq!(*distances.get("D").unwrap(), 2);
}

#[test]
fn bfs_distances_differ_by_at_most_one_along_an_edge() {
    let mut graph = path_graph();
    graph.add_edge(s("A"), s("C"));
    graph.add_edge(s("D"), s("B"));
    let distances = graph.bfs(&s("A"));
    let edges = [("A", "B"), ("B", "C"), ("C", "D"), ("A", "C"), ("D", "B")];
    for (u, v) in edges {
        let du = *distances.get(u).unwrap();
        let dv = *distances.get(v).unwrap();
        assert!(dv <= du + 1);
        assert!(du <= dv + 1);
    }
}

#[test]
fn degree_distribution_of_a_path() {
    let graph = path_graph();
    let degrees = graph.degree_distribution();
    assert_eq!(degrees.len(), 4);
    assert_eq!(*degrees.get("A").unwrap(), 1);
    assert_eq!(*degrees.get("B").unwrap(), 2);
    assert_eq!(*degrees.get("C").unwrap(), 2);
    assert_eq!(*degrees.get("D").unwrap(), 1);
}

#[test]
fn has_edge_is_mutual_and_only_for_added_edges() {
    let graph = path_graph();
    for (u, v) in [("A", "B"), ("B", "C"), ("C", "D")] {
        assert!(graph.has_edge(&s(u), &s(v)));
        assert!(graph.has_edge(&s(v), &s(u)));
    }
    assert!(!graph.has_edge(&s("A"), &s("C")));
    assert!(!graph.has_edge(&s("C"), &s("A")));
    assert!(!graph.has_edge(&s("A"), &s("A")));
    assert!(!graph.has_edge(&s("A"), &s("Z")));
    assert!(!graph.has_edge(&s("Z"), &s("A")));
}

#[test]
fn nodes_are_listed_once() {
    let mut graph = path_graph();
    graph.add_edge(s("D"), s("A"));
    let mut names = graph.nodes();
    names.sort();
    assert_eq!(names, vec![s("A"), s("B"), s("C"), s("D")]);
    assert_eq!(Graph::new().nodes().len(), 0);
}
