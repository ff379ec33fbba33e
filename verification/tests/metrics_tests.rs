use graph_metrics::graph::Graph;
use graph_metrics::ratio::Ratio;

fn s(x: &str) -> String {
    x.to_string()
}

fn value(r: Ratio) -> f64 {
    r.numerator as f64 / r.denominator as f64
}

#[test]
fn test_clustering_coefficient() {
    let mut graph = Graph::new();
    graph.add_edge("A".to_string(), "B".to_string());
    graph.add_edge("B".to_string(), "C".to_string());
    graph.add_edge("C".to_string(), "A".to_string());

    let coefficient = value(graph.clustering_coefficient(&"A".to_string()));
    assert!((coefficient - 1.0).abs() < f64::EPSILON);

    graph.add_edge("A".to_string(), "D".to_string());
    let coefficient = value(graph.clustering_coefficient(&"A".to_string()));
    assert!((coefficient - 0.3333).abs() < 0.001);
}

#[test]
fn test_degree_statistics() {
    let mut graph = Graph::new();
    graph.add_edge("A".to_string(), "B".to_string());
    graph.add_edge("B".to_string(), "C".to_string());
    graph.add_edge("C".to_string(), "D".to_string());

    let (min_degree, max_degree, avg_degree) = graph.degree_statistics();
    let avg_degree = value(avg_degree);

    assert_eq!(min_degree, 1);
    assert_eq!(max_degree, 2);
    assert!((avg_degree - 1.5).abs() < f64::EPSILON);
}

#[test]
fn degree_statistics_gives_sum_of_degrees_over_nodes() {
    let mut graph = Graph::new();
    graph.add_edge(s("A"), s("B"));
    graph.add_edge(s("B"), s("C"));
    graph.add_edge(s("C"), s("D"));
    let (_, _, average) = graph.degree_statistics();
    assert_eq!(average, Ratio { numerator: 6, denominator: 4 });
}

#[test]
fn degree_statistics_of_empty_graph_is_all_zero() {
    let graph = Graph::new();
    let (low, high, average) = graph.degree_statistics();
    assert_eq!(low, 0);
    assert_eq!(high, 0);
    assert_eq!(average, Ratio { numerator: 0, denominator: 1 });
    assert_eq!(value(average), 0.0);
}

#[test]
fn degree_statistics_of_a_star() {
    let mut graph = Graph::new();
    for leaf in ["a", "b", "c", "d", "e"] {
        graph.add_edge(s("hub"), s(leaf));
    }
    let (low, high, average) = graph.degree_statistics();
    assert_eq!(low, 1);
    assert_eq!(high, 5);
    assert_eq!(average, Ratio { numerator: 10, denominator: 6 });
}

#[test]
fn clustering_is_zero_below_two_neighbours() {
    let mut graph = Graph::new();
    graph.add_edge(s("A"), s("B"));
    assert_eq!(graph.clustering_coefficient(&s("A")), Ratio::zero());
    assert_eq!(graph.clustering_coefficient(&s("B")), Ratio::zero());
    assert_eq!(graph.clustering_coefficient(&s("nobody")), Ratio::zero());
    assert_eq!(Graph::new().clustering_coefficient(&s("A")), Ratio::zero());
    assert_eq!(value(Ratio::zero()), 0.0);
}

#[test]
fn clustering_is_one_where_all_neighbours_are_joined() {
    let mut graph = Graph::new();
    let names = ["A", "B", "C", "D", "E"];
    for (i, u) in names.iter().enumerate() {
        for v in names.iter().skip(i + 1) {
            graph.add_edge(s(u), s(v));
        }
    }
    for u in names {
        let share = graph.clustering_coefficient(&s(u));
        assert_eq!(share, Ratio { numerator: 6, denominator: 6 });
        assert_eq!(value(share), 1.0);
    }
}

#[test]
fn clustering_counts_joined_pairs_over_possible_pairs() {
    let mut graph = Graph::new();
    graph.add_edge(s("A"), s("B"));
    graph.add_edge(s("B"), s("C"));
    graph.add_edge(s("C"), s("A"));
    graph.add_edge(s("A"), s("D"));
    assert_eq!(graph.clustering_coefficient(&s("A")), Ratio { numerator: 1, denominator: 3 });
    assert_eq!(graph.clustering_coefficient(&s("B")), Ratio { numerator: 1, denominator: 1 });
    assert_eq!(graph.clustering_coefficient(&s("D")), Ratio { numerator: 0, denominator: 1 });
    graph.add_edge(s("D"), s("E"));
    assert_eq!(graph.clustering_coefficient(&s("D")), Ratio { numerator: 0, denominator: 1 });
}

#[test]
fn clustering_coefficients_cover_every_node() {
    let mut graph = Graph::new();
    graph.add_edge(s("A"), s("B"));
    graph.add_edge(s("B"), s("C"));
    graph.add_edge(s("C"), s("A"));
    graph.add_edge(s("A"), s("D"));
    let mut shares = graph.clustering_coefficients();
    shares.sort_by_key(|x| x.0.clone());
    assert_eq!(
        shares,
        vec![
            (s("A"), Ratio { numerator: 1, denominator: 3 }),
            (s("B"), Ratio { numerator: 1, denominator: 1 }),
            (s("C"), Ratio { numerator: 1, denominator: 1 }),
            (s("D"), Ratio { numerator: 0, denominator: 1 }),
        ]
    );
    let mean = shares.iter().map(|x| value(x.1)).sum::<f64>() / shares.len() as f64;
    assert!((mean - (1.0 / 3.0 + 1.0 + 1.0) / 4.0).abs() < 1e-12);
    assert_eq!(Graph::new().clustering_coefficients().len(), 0);
}
