use least_cost_path::graph::{Entry, Graph, GraphError};
use least_cost_path::json::{export_json, import_json};

fn entry(label: &str, edges: &[(&str, usize)]) -> Entry {
    (
        label.to_string(),
        edges.iter().map(|(t, w)| (t.to_string(), *w)).collect(),
    )
}

#[test]
fn sample_edges_come_in_matching_pairs() {
    let g = Graph::sample();
    assert_eq!(g.labels, vec!["A", "B", "C", "D", "E", "F"]);
    assert_eq!(g.adj.iter().map(|r| r.len()).sum::<usize>(), 16);
    for (u, row) in g.adj.iter().enumerate() {
        for &(v, w) in row {
            assert!(g.adj[v].contains(&(u, w)));
        }
    }
}

#[test]
fn entries_round_trip() {
    let g = Graph::sample();
    let h = Graph::from_entries(&g.entries()).unwrap();
    assert_eq!(h.labels, g.labels);
    assert_eq!(h.adj, g.adj);
}

#[test]
fn json_round_trip() {
    let g = Graph::sample();
    let text = export_json(&g);
    let h = import_json(&text).unwrap();
    assert_eq!(h.labels, g.labels);
    assert_eq!(h.adj, g.adj);
    assert_eq!(export_json(&h), text);
}

#[test]
fn json_text_is_a_map_of_maps() {
    let g = Graph::from_entries(&vec![entry("A", &[("B", 3)]), entry("B", &[("A", 3)])]).unwrap();
    let text = export_json(&g);
    let compact: String = text.chars().filter(|c| !c.is_whitespace()).collect();
    assert_eq!(compact, "{\"A\":{\"B\":3},\"B\":{\"A\":3}}");
}

#[test]
fn json_import_reads_labels_in_key_order() {
    let g = import_json("{\"B\": {\"A\": 2}, \"A\": {\"B\": 2}}").unwrap();
    assert_eq!(g.labels, vec!["A", "B"]);
    assert_eq!(g.adj, vec![vec![(1, 2)], vec![(0, 2)]]);
}

#[test]
fn malformed_json_is_rejected() {
    assert!(matches!(import_json("not json"), Err(GraphError::Malformed)));
    assert!(matches!(import_json("{\"A\": {\"B\": -1}}"), Err(GraphError::Malformed)));
    assert!(matches!(import_json("[1, 2]"), Err(GraphError::Malformed)));
}

#[test]
fn json_with_dangling_neighbour_is_rejected() {
    assert!(matches!(import_json("{\"A\": {\"B\": 1}}"), Err(GraphError::UnknownNeighbour)));
}

#[test]
fn duplicate_node_is_rejected() {
    let r = Graph::from_entries(&vec![entry("A", &[]), entry("A", &[])]);
    assert!(matches!(r, Err(GraphError::DuplicateNode)));
}

#[test]
fn unknown_neighbour_is_rejected() {
    let r = Graph::from_entries(&vec![entry("A", &[("B", 1)])]);
    assert!(matches!(r, Err(GraphError::UnknownNeighbour)));
}

#[test]
fn duplicate_edge_is_rejected() {
    let r = Graph::from_entries(&vec![entry("A", &[("B", 1), ("B", 2)]), entry("B", &[])]);
    assert!(matches!(r, Err(GraphError::DuplicateEdge)));
}

#[test]
fn empty_graph_is_accepted() {
    let g = Graph::from_entries(&Vec::new()).unwrap();
    assert!(g.labels.is_empty());
    assert_eq!(import_json("{}").unwrap().labels.len(), 0);
}
