use least_cost_path::graph::{Entry, Graph};
use least_cost_path::search::{dijakstra, find, index_of, path_text, SearchError};

fn entry(label: &str, edges: &[(&str, usize)]) -> Entry {
    (
        label.to_string(),
        edges.iter().map(|(t, w)| (t.to_string(), *w)).collect(),
    )
}

fn cost(g: &Graph, labels: &[String]) -> usize {
    let mut total = 0;
    for pair in labels.windows(2) {
        let u = index_of(g, &pair[0]).unwrap();
        let v = index_of(g, &pair[1]).unwrap();
        let (_, w) = g.adj[u].iter().find(|(t, _)| *t == v).unwrap();
        total += w;
    }
    total
}

fn strings(v: &[&str]) -> Vec<String> {
    v.iter().map(|s| s.to_string()).collect()
}

#[test]
fn sample_a_to_f_least_cost() {
    let g = Graph::sample();
    let p = dijakstra(&g, "A", "F").unwrap();
    assert_eq!(p, strings(&["A", "C", "F"]));
    assert_eq!(cost(&g, &p), 13);
}

#[test]
fn sample_positions_a_to_f() {
    let g = Graph::sample();
    assert_eq!(find(&g, 0, 5), Ok(vec![0, 2, 5]));
}

#[test]
fn sample_e_to_a_least_cost() {
    let g = Graph::sample();
    let p = dijakstra(&g, "E", "A").unwrap();
    assert_eq!(p, strings(&["E", "B", "A"]));
    assert_eq!(cost(&g, &p), 7);
}

#[test]
fn sample_a_to_e_passes_through_b() {
    let g = Graph::sample();
    let p = dijakstra(&g, "A", "E").unwrap();
    assert_eq!(p, strings(&["A", "B", "E"]));
    assert_eq!(cost(&g, &p), 7);
}

#[test]
fn same_start_and_goal_is_single_node() {
    let g = Graph::sample();
    for x in ["A", "B", "C", "D", "E", "F"] {
        let p = dijakstra(&g, x, x).unwrap();
        assert_eq!(p, strings(&[x]));
        assert_eq!(cost(&g, &p), 0);
    }
}

#[test]
fn isolated_node_has_no_path() {
    let g = Graph::from_entries(&vec![
        entry("A", &[("B", 1)]),
        entry("B", &[("A", 1)]),
        entry("Z", &[]),
    ])
    .unwrap();
    assert_eq!(dijakstra(&g, "A", "Z"), Err(SearchError::NoPathFound));
    assert_eq!(dijakstra(&g, "Z", "A"), Err(SearchError::NoPathFound));
    assert_eq!(find(&g, 0, 2), Err(SearchError::NoPathFound));
}

#[test]
fn one_way_edge_is_not_walked_backwards() {
    let g = Graph::from_entries(&vec![entry("A", &[("B", 2)]), entry("B", &[])]).unwrap();
    assert_eq!(dijakstra(&g, "A", "B"), Ok(strings(&["A", "B"])));
    assert_eq!(dijakstra(&g, "B", "A"), Err(SearchError::NoPathFound));
}

#[test]
fn unknown_label_is_rejected() {
    let g = Graph::sample();
    assert_eq!(dijakstra(&g, "Q", "A"), Err(SearchError::UnknownNode));
    assert_eq!(dijakstra(&g, "A", "Q"), Err(SearchError::UnknownNode));
    assert_eq!(index_of(&g, "Q"), None);
    assert_eq!(index_of(&g, "D"), Some(3));
}

#[test]
fn cheaper_longer_route_wins() {
    let g = Graph::from_entries(&vec![
        entry("A", &[("B", 1), ("D", 10)]),
        entry("B", &[("C", 1)]),
        entry("C", &[("D", 1)]),
        entry("D", &[]),
    ])
    .unwrap();
    assert_eq!(dijakstra(&g, "A", "D"), Ok(strings(&["A", "B", "C", "D"])));
}

#[test]
fn zero_weight_edges() {
    let g = Graph::from_entries(&vec![
        entry("A", &[("B", 0)]),
        entry("B", &[("C", 0)]),
        entry("C", &[]),
    ])
    .unwrap();
    let p = dijakstra(&g, "A", "C").unwrap();
    assert_eq!(p, strings(&["A", "B", "C"]));
    assert_eq!(cost(&g, &p), 0);
}

#[test]
fn largest_weights_do_not_overflow() {
    let g = Graph::from_entries(&vec![
        entry("A", &[("B", usize::MAX), ("C", 1)]),
        entry("B", &[("D", 1)]),
        entry("C", &[("B", usize::MAX - 1)]),
        entry("D", &[]),
    ])
    .unwrap();
    assert_eq!(dijakstra(&g, "A", "B"), Ok(strings(&["A", "B"])));
    assert_eq!(dijakstra(&g, "A", "D"), Err(SearchError::NoPathFound));
}

#[test]
fn ties_go_to_the_lower_label() {
    let g = Graph::from_entries(&vec![
        entry("A", &[("B", 1), ("C", 1)]),
        entry("B", &[("D", 1)]),
        entry("C", &[("D", 1)]),
        entry("D", &[]),
    ])
    .unwrap();
    assert_eq!(dijakstra(&g, "A", "D"), Ok(strings(&["A", "B", "D"])));
}

#[test]
fn repeated_searches_agree() {
    let g = Graph::sample();
    for s in ["A", "B", "C", "D", "E", "F"] {
        for t in ["A", "B", "C", "D", "E", "F"] {
            assert_eq!(dijakstra(&g, s, t), dijakstra(&g, s, t));
        }
    }
}

#[test]
fn triangle_inequality_on_sample() {
    let g = Graph::sample();
    let names = ["A", "B", "C", "D", "E", "F"];
    let dist = |s: &str, t: &str| cost(&g, &dijakstra(&g, s, t).unwrap());
    for x in names {
        for y in names {
            for z in names {
                assert!(dist(x, z) <= dist(x, y) + dist(y, z));
            }
        }
    }
}

#[test]
fn path_is_joined_with_arrows() {
    assert_eq!(path_text(&strings(&["A", "C", "F"])), "A -> C -> F");
    assert_eq!(path_text(&strings(&["A"])), "A");
    assert_eq!(path_text(&Vec::new()), "");
}
