use graph_metrics::utils::{clean_dataset, parse_edge};

fn pair(a: &str, b: &str) -> (String, String) {
    (a.to_string(), b.to_string())
}

#[test]
fn test_clean_dataset() {
    let edges = vec![
        ("A".to_string(), "B".to_string()),
        ("B".to_string(), "A".to_string()),
        ("A".to_string(), "B".to_string()),
        ("C".to_string(), "D".to_string()),
    ];

    let cleaned = clean_dataset(edges);

    assert_eq!(cleaned.len(), 2);
    assert!(cleaned.contains(&("A".to_string(), "B".to_string())));
    assert!(cleaned.contains(&("C".to_string(), "D".to_string())));
}

#[test]
fn clean_dataset_puts_the_smaller_label_first() {
    let cleaned = clean_dataset(vec![pair("B", "A"), pair("10", "9"), pair("ab", "a")]);
    assert_eq!(cleaned, vec![pair("A", "B"), pair("10", "9"), pair("a", "ab")]);
}

#[test]
fn clean_dataset_keeps_first_occurrences_in_order() {
    let cleaned = clean_dataset(vec![
        pair("C", "D"),
        pair("A", "B"),
        pair("D", "C"),
        pair("E", "E"),
        pair("B", "A"),
        pair("E", "E"),
    ]);
    assert_eq!(cleaned, vec![pair("C", "D"), pair("A", "B"), pair("E", "E")]);
}

#[test]
fn clean_dataset_of_nothing_is_empty() {
    assert_eq!(clean_dataset(Vec::new()).len(), 0);
}

#[test]
fn clean_dataset_orders_labels_by_their_bytes() {
    let cleaned = clean_dataset(vec![pair("é", "z"), pair("Z", "a")]);
    assert_eq!(cleaned, vec![pair("z", "é"), pair("Z", "a")]);
}

#[test]
fn parse_edge_reads_two_words() {
    assert_eq!(parse_edge("A B"), Some(pair("A", "B")));
    assert_eq!(parse_edge("0 4038"), Some(pair("0", "4038")));
    assert_eq!(parse_edge("  left \t right\r"), Some(pair("left", "right")));
    assert_eq!(parse_edge("x\u{3000}y"), Some(pair("x", "y")));
    assert_eq!(parse_edge("é\u{a0}ü\u{2028}"), Some(pair("é", "ü")));
}

#[test]
fn parse_edge_passes_over_other_lines() {
    assert_eq!(parse_edge(""), None);
    assert_eq!(parse_edge("   "), None);
    assert_eq!(parse_edge("A"), None);
    assert_eq!(parse_edge(" A "), None);
    assert_eq!(parse_edge("A B C"), None);
    assert_eq!(parse_edge("A B C D"), None);
    assert_eq!(parse_edge("A\u{200b}B"), None);
}

#[test]
fn parse_edge_agrees_with_splitting_at_white_space() {
    let lines = ["D E", "a  b", "\ta b\n", "a\u{85}b", "a\u{1680}b c", "a\u{180e}b", "#comment"];
    for line in lines {
        let words: Vec<&str> = line.split_whitespace().collect();
        let expected = if words.len() == 2 { Some(pair(words[0], words[1])) } else { None };
        assert_eq!(parse_edge(line), expected);
    }
}

#[test]
fn parsed_lines_build_the_graph() {
    let lines = ["A B", "B C", "", "C D", "D E F", "B A"];
    let edges: Vec<(String, String)> = lines.iter().filter_map(|l| parse_edge(l)).collect();
    assert_eq!(edges.len(), 4);
    assert_eq!(edges[0], pair("A", "B"));
    assert_eq!(edges[3], pair("B", "A"));
    assert_eq!(clean_dataset(edges).len(), 3);
}

#[test]
fn edge_lines_are_read_in_order() {
    let lines = vec!["A B", "B C", "C D", "D E"];
    let result: Vec<(String, String)> = lines.iter().filter_map(|l| parse_edge(l)).collect();
    assert_eq!(result.len(), 4);
    assert_eq!(result[0], ("A".to_string(), "B".to_string()));
    assert_eq!(result[3], ("D".to_string(), "E".to_string()));
}
