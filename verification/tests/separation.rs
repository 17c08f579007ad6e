use d_separation::{d_separated, is_blocked, read_graph, Edge, Graph, Node, UnknownNode};

/// Queries in both orders, which must agree, and gives the common answer.
fn both_ways(graph: &Graph, a: Node, b: Node, evidence: &[Node]) -> Result<bool, UnknownNode> {
    let ab = d_separated(graph, a, b, evidence)?;
    let ba = d_separated(graph, b, a, evidence)?;
    assert!(ab == ba, "Gives different results in opposite directions!");
    Ok(ab)
}

fn get_graph() -> Graph {
    let string = "
            A -> B
            A -> C
            C -> F
            D -> F
            B -> E
            E -> G
            F -> G
            F -> H
        ";
    read_graph(string).unwrap()
}

#[test]
fn test_assn_graph() {
    let graph = get_graph();
    assert!(!both_ways(&graph, 'A', 'B', &[]).unwrap());
    assert!(!both_ways(&graph, 'A', 'E', &[]).unwrap());
    assert!(both_ways(&graph, 'A', 'E', &['B']).unwrap());
    assert!(!both_ways(&graph, 'A', 'C', &[]).unwrap());
    assert!(!both_ways(&graph, 'A', 'F', &[]).unwrap());
    assert!(both_ways(&graph, 'A', 'F', &['C']).unwrap());
    assert!(!both_ways(&graph, 'A', 'G', &['C']).unwrap());
    assert!(both_ways(&graph, 'A', 'G', &['C', 'B']).unwrap());
    assert!(!both_ways(&graph, 'D', 'H', &['C', 'B']).unwrap());
    assert!(both_ways(&graph, 'D', 'H', &['C', 'B', 'F']).unwrap());
    assert!(!both_ways(&graph, 'C', 'G', &[]).unwrap());
    assert!(!both_ways(&graph, 'C', 'G', &['F']).unwrap());
    assert!(both_ways(&graph, 'C', 'G', &['F', 'A']).unwrap());
}

#[test]
fn every_pair_answers_the_same_in_both_orders() {
    let graph = get_graph();
    let nodes = ['A', 'B', 'C', 'D', 'E', 'F', 'G', 'H', 'Z'];
    let evidence: [&[Node]; 5] = [&[], &['F'], &['C', 'B'], &['G', 'A'], &['H', 'H', 'E']];
    for given in evidence {
        for a in nodes {
            for b in nodes {
                assert_eq!(d_separated(&graph, a, b, given), d_separated(&graph, b, a, given));
            }
        }
    }
}

#[test]
fn a_node_is_never_separated_from_itself() {
    let graph = get_graph();
    for node in ['A', 'B', 'C', 'D', 'E', 'F', 'G', 'H'] {
        assert_eq!(d_separated(&graph, node, node, &[]), Ok(false));
        assert_eq!(d_separated(&graph, node, node, &[node]), Ok(false));
        assert_eq!(d_separated(&graph, node, node, &['A', 'F', 'G']), Ok(false));
    }
}

#[test]
fn observing_a_collider_connects_its_parents() {
    let graph = get_graph();
    assert_eq!(d_separated(&graph, 'C', 'D', &[]), Ok(true));
    assert_eq!(d_separated(&graph, 'C', 'D', &['F']), Ok(false));
    assert_eq!(d_separated(&graph, 'D', 'C', &['F']), Ok(false));
}

#[test]
fn observing_a_child_of_a_collider_connects_its_parents() {
    let graph = get_graph();
    assert_eq!(d_separated(&graph, 'C', 'D', &['H']), Ok(false));
    assert_eq!(d_separated(&graph, 'C', 'D', &['G']), Ok(false));
    assert_eq!(d_separated(&graph, 'A', 'D', &['H']), Ok(false));
    assert_eq!(d_separated(&graph, 'A', 'D', &[]), Ok(true));
}

#[test]
fn a_node_that_no_edge_touches_is_unknown() {
    let graph = get_graph();
    assert_eq!(d_separated(&graph, 'A', 'Z', &[]), Err(UnknownNode));
    assert_eq!(d_separated(&graph, 'Z', 'A', &[]), Err(UnknownNode));
    assert_eq!(d_separated(&graph, 'Z', 'Z', &[]), Err(UnknownNode));
    assert_eq!(d_separated(&graph, 'Z', 'Y', &['A']), Err(UnknownNode));
    assert_eq!(d_separated(&Graph::new(), 'A', 'A', &[]), Err(UnknownNode));
    assert_eq!(graph.neighbors('Z'), Err(UnknownNode));
    assert!(!graph.contains('Z'));
    assert!(graph.contains('H'));
}

#[test]
fn evidence_outside_the_graph_changes_nothing() {
    let graph = get_graph();
    assert_eq!(d_separated(&graph, 'A', 'E', &['Z']), Ok(false));
    assert_eq!(d_separated(&graph, 'A', 'E', &['Z', 'B']), Ok(true));
}

#[test]
fn evidence_counts_once_and_in_any_order() {
    let graph = get_graph();
    assert_eq!(d_separated(&graph, 'A', 'G', &['B', 'C']), Ok(true));
    assert_eq!(d_separated(&graph, 'A', 'G', &['C', 'B', 'C', 'B']), Ok(true));
    assert_eq!(d_separated(&graph, 'D', 'H', &['F', 'F']), Ok(true));
}

#[test]
fn nodes_without_a_path_between_them_are_separated() {
    let mut graph = Graph::new();
    graph.add_edge('A', 'B');
    graph.add_edge('C', 'D');
    assert_eq!(d_separated(&graph, 'A', 'C', &[]), Ok(true));
    assert_eq!(d_separated(&graph, 'D', 'B', &['A']), Ok(true));
    assert_eq!(d_separated(&graph, 'A', 'B', &[]), Ok(false));
}

#[test]
fn chain_fork_and_collider() {
    let mut chain = Graph::new();
    chain.add_edge('X', 'M');
    chain.add_edge('M', 'Y');
    assert_eq!(d_separated(&chain, 'X', 'Y', &[]), Ok(false));
    assert_eq!(d_separated(&chain, 'X', 'Y', &['M']), Ok(true));
    assert_eq!(d_separated(&chain, 'Y', 'X', &['M']), Ok(true));

    let mut fork = Graph::new();
    fork.add_edge('M', 'X');
    fork.add_edge('M', 'Y');
    assert_eq!(d_separated(&fork, 'X', 'Y', &[]), Ok(false));
    assert_eq!(d_separated(&fork, 'X', 'Y', &['M']), Ok(true));

    let mut collider = Graph::new();
    collider.add_edge('X', 'M');
    collider.add_edge('Y', 'M');
    collider.add_edge('M', 'K');
    assert_eq!(d_separated(&collider, 'X', 'Y', &[]), Ok(true));
    assert_eq!(d_separated(&collider, 'X', 'Y', &['M']), Ok(false));
    assert_eq!(d_separated(&collider, 'X', 'Y', &['K']), Ok(false));
}

#[test]
fn the_search_ends_on_cycles_and_repeated_edges() {
    let mut graph = Graph::new();
    graph.add_edge('A', 'B');
    graph.add_edge('B', 'A');
    graph.add_edge('A', 'B');
    graph.add_edge('B', 'B');
    graph.add_edge('C', 'C');
    assert_eq!(d_separated(&graph, 'A', 'B', &[]), Ok(false));
    assert_eq!(d_separated(&graph, 'A', 'C', &[]), Ok(true));
    assert_eq!(d_separated(&graph, 'A', 'C', &['B', 'A']), Ok(true));
    assert_eq!(d_separated(&graph, 'C', 'C', &['C']), Ok(false));
}

#[test]
fn an_edge_is_recorded_at_both_of_its_ends() {
    let mut graph = Graph::new();
    assert_eq!(graph.neighbors('A'), Err(UnknownNode));
    graph.add_edge('A', 'B');
    graph.add_edge('C', 'A');
    graph.add_edge('A', 'B');
    let out = Edge { toward: true, end: 'B' };
    let back = Edge { toward: false, end: 'C' };
    assert_eq!(graph.neighbors('A').unwrap(), &vec![out, back, out]);
    let from_a = Edge { toward: false, end: 'A' };
    assert_eq!(graph.neighbors('B').unwrap(), &vec![from_a, from_a]);
    assert_eq!(graph.neighbors('C').unwrap(), &vec![Edge { toward: true, end: 'A' }]);
}

#[test]
fn a_loop_is_recorded_twice_at_its_node() {
    let mut graph = Graph::new();
    graph.add_edge('A', 'A');
    let out = Edge { toward: true, end: 'A' };
    let back = Edge { toward: false, end: 'A' };
    assert_eq!(graph.neighbors('A').unwrap(), &vec![out, back]);
}

#[test]
fn the_blocking_rule_in_full() {
    for observed_child in [false, true] {
        assert!(is_blocked(false, true, true, observed_child));
        assert!(is_blocked(true, true, true, observed_child));
        assert!(is_blocked(false, true, false, observed_child));
        assert!(!is_blocked(true, true, false, observed_child));
        assert!(!is_blocked(false, false, true, observed_child));
        assert!(!is_blocked(false, false, false, observed_child));
        assert!(!is_blocked(true, false, true, observed_child));
    }
    assert!(is_blocked(true, false, false, false));
    assert!(!is_blocked(true, false, false, true));
}

#[test]
fn the_blocking_rule_reads_the_same_backwards() {
    for arrived in [false, true] {
        for observed in [false, true] {
            for leaving in [false, true] {
                for child in [false, true] {
                    assert_eq!(
                        is_blocked(arrived, observed, leaving, child),
                        is_blocked(!leaving, observed, !arrived, child)
                    );
                }
            }
        }
    }
}
