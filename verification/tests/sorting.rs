use toposort::{build_graph, sort_pairs, topological_sort};

fn pairs_of(raw: &[(&str, &str)]) -> Vec<(String, String)> {
    let mut out: Vec<(String, String)> = Vec::new();
    for (f, t) in raw {
        out.push((f.to_string(), t.to_string()));
    }
    out
}

fn position(order: &[String], name: &str) -> usize {
    let mut i: usize = 0;
    while i < order.len() {
        if order[i] == name {
            return i;
        }
        i += 1;
    }
    panic!("name not in ordering");
}

fn assert_valid(raw: &[(&str, &str)], order: &[String]) {
    for (f, t) in raw {
        assert!(position(order, f) < position(order, t));
    }
    let mut distinct: Vec<&str> = Vec::new();
    for (f, t) in raw {
        if !distinct.contains(f) {
            distinct.push(f);
        }
        if !distinct.contains(t) {
            distinct.push(t);
        }
    }
    assert_eq!(order.len(), distinct.len());
    for name in &distinct {
        let mut count: usize = 0;
        for s in order {
            if s == name {
                count += 1;
            }
        }
        assert_eq!(count, 1);
    }
}

#[test]
fn empty_input_sorts_to_empty() {
    let result = sort_pairs(&pairs_of(&[]));
    assert_eq!(result, Ok(Vec::new()));
}

#[test]
fn single_edge_orders_source_first() {
    let result = sort_pairs(&pairs_of(&[("A", "B")]));
    let order = result.expect("acyclic input must succeed");
    assert_eq!(order, vec!["A".to_string(), "B".to_string()]);
}

#[test]
fn triangle_dag_orders_all_three() {
    let raw = [("A", "B"), ("B", "C"), ("A", "C")];
    let result = sort_pairs(&pairs_of(&raw));
    let order = result.expect("acyclic input must succeed");
    assert_valid(&raw, &order);
    assert!(position(&order, "A") < position(&order, "B"));
    assert!(position(&order, "B") < position(&order, "C"));
}

#[test]
fn two_cycle_reports_both_fields() {
    let result = sort_pairs(&pairs_of(&[("A", "B"), ("B", "A")]));
    let (most_outgoing, least_incoming) = result.expect_err("cycle must fail");
    assert!(most_outgoing == "A" || most_outgoing == "B");
    assert!(least_incoming == "A" || least_incoming == "B");
    assert!(!most_outgoing.is_empty());
    assert!(!least_incoming.is_empty());
}

#[test]
fn self_loop_reports_itself_twice() {
    let result = sort_pairs(&pairs_of(&[("A", "A")]));
    let diag = result.expect_err("self-loop must fail");
    assert_eq!(diag, ("A".to_string(), "A".to_string()));
}

#[test]
fn fan_out_is_acyclic() {
    let raw = [("A", "B"), ("A", "C"), ("A", "D")];
    let result = sort_pairs(&pairs_of(&raw));
    let order = result.expect("acyclic input must succeed");
    assert_valid(&raw, &order);
    assert_eq!(position(&order, "A"), 0);
}

#[test]
fn outcome_is_deterministic() {
    let acyclic = pairs_of(&[("A", "B"), ("B", "C"), ("C", "D"), ("A", "D")]);
    let first = sort_pairs(&acyclic);
    let second = sort_pairs(&acyclic);
    assert_eq!(first.is_ok(), second.is_ok());
    assert_eq!(first, second);

    let cyclic = pairs_of(&[("A", "B"), ("B", "C"), ("C", "A")]);
    let first = sort_pairs(&cyclic);
    let second = sort_pairs(&cyclic);
    assert_eq!(first.is_ok(), second.is_ok());
    assert_eq!(first, second);
}

#[test]
fn building_twice_gives_identical_graphs() {
    let pairs = pairs_of(&[("A", "B"), ("B", "C"), ("A", "C"), ("A", "B")]);
    let g1 = build_graph(&pairs);
    let g2 = build_graph(&pairs);
    assert_eq!(g1.node_count(), g2.node_count());
    let mut i: usize = 0;
    while i < g1.node_count() {
        assert_eq!(g1.name_at(i), g2.name_at(i));
        assert_eq!(g1.indeg_at(i), g2.indeg_at(i));
        assert_eq!(g1.out_count(i), g2.out_count(i));
        i += 1;
    }
}

#[test]
fn built_graph_counts_duplicate_edges() {
    let pairs = pairs_of(&[("A", "B"), ("A", "B")]);
    let g = build_graph(&pairs);
    assert_eq!(g.node_count(), 2);
    // node order within a pair: target first, then source
    assert_eq!(g.name_at(0), "B".to_string());
    assert_eq!(g.name_at(1), "A".to_string());
    assert_eq!(g.indeg_at(0), 2);
    assert_eq!(g.indeg_at(1), 0);
    assert_eq!(g.out_count(1), 2);
    assert_eq!(g.out_count(0), 0);
}

#[test]
fn sorter_works_on_a_built_graph() {
    let pairs = pairs_of(&[("A", "B"), ("A", "B")]);
    let g = build_graph(&pairs);
    let order = topological_sort(&g).expect("duplicate parallel edges stay acyclic");
    assert_eq!(order, vec!["A".to_string(), "B".to_string()]);
}

#[test]
fn empty_string_is_an_ordinary_node_name() {
    let raw = [("", "B"), ("B", "C")];
    let result = sort_pairs(&pairs_of(&raw));
    let order = result.expect("acyclic input must succeed");
    assert_valid(&raw, &order);
    assert_eq!(position(&order, ""), 0);
}

#[test]
fn cycle_with_tail_reports_extremes() {
    // A -> B -> C -> A plus D -> A. Every node has out-degree 1, so the
    // tie goes to B, the first node encountered; D alone has in-degree 0.
    let result = sort_pairs(&pairs_of(&[("A", "B"), ("B", "C"), ("C", "A"), ("D", "A")]));
    let diag = result.expect_err("cycle must fail");
    assert_eq!(diag, ("B".to_string(), "D".to_string()));
}

#[test]
fn longer_chain_sorts_in_order() {
    let raw = [("A", "B"), ("B", "C"), ("C", "D"), ("D", "E")];
    let result = sort_pairs(&pairs_of(&raw));
    let order = result.expect("acyclic input must succeed");
    assert_eq!(
        order,
        vec![
            "A".to_string(),
            "B".to_string(),
            "C".to_string(),
            "D".to_string(),
            "E".to_string(),
        ]
    );
}

#[test]
fn disconnected_components_all_appear() {
    let raw = [("A", "B"), ("C", "D")];
    let result = sort_pairs(&pairs_of(&raw));
    let order = result.expect("acyclic input must succeed");
    assert_valid(&raw, &order);
}

#[test]
fn cycle_beside_free_nodes_still_fails() {
    let result = sort_pairs(&pairs_of(&[("A", "B"), ("X", "Y"), ("B", "A")]));
    assert!(result.is_err());
}
