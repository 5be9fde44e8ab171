use layered_paths::Edge;
use layered_paths::Node;
use layered_paths::min_path_cost;

#[test]
fn it_works() {
    let node_default = Node::default();
    let mut sanity_input = vec![vec![node_default]];
    assert_eq!(min_path_cost(&mut sanity_input), None);

    let r2c0 = Node::new(vec![]);
    let r2c1 = Node::new(vec![]);

    let r1c0 = Node::new(vec![Edge::new(6, 0)]);
    let r1c1 = Node::new(vec![Edge::new(4, 0), Edge::new(5, 1)]);

    let r0c0 = Node::new(vec![Edge::new(2, 0), Edge::new(3, 1)]);
    let r0c1 = Node::new(vec![Edge::new(0, 0), Edge::new(1, 1)]);

    let mut simple_input = vec![vec![r0c0, r0c1], vec![r1c0, r1c1], vec![r2c0, r2c1]];
    assert_eq!(min_path_cost(&mut simple_input), Some(5));
}

#[test]
fn single_row_single_node_absent() {
    let mut rows = vec![vec![Node::new(vec![])]];
    assert_eq!(min_path_cost(&mut rows), None);
}

#[test]
fn single_row_many_nodes_absent() {
    let mut rows = vec![vec![Node::new(vec![]), Node::new(vec![]), Node::new(vec![])]];
    assert_eq!(min_path_cost(&mut rows), None);
}

#[test]
fn three_rows_expected_five() {
    // Row 0: A (B at weight 2, C at weight 3), D (B at weight 0, C at weight 1).
    // Row 1: B (E at weight 6), C (E at weight 4, F at weight 5).
    // Row 2: E, F (terminal). Cheapest: D -> C (1) -> E (4) = 5.
    let a = Node::new(vec![Edge::new(2, 0), Edge::new(3, 1)]);
    let d = Node::new(vec![Edge::new(0, 0), Edge::new(1, 1)]);
    let b = Node::new(vec![Edge::new(6, 0)]);
    let c = Node::new(vec![Edge::new(4, 0), Edge::new(5, 1)]);
    let e = Node::new(vec![]);
    let f = Node::new(vec![]);
    let mut rows = vec![vec![a, d], vec![b, c], vec![e, f]];
    assert_eq!(min_path_cost(&mut rows), Some(5));
    // The terminal nodes hold their own settled costs: E via D -> C -> E,
    // F via D -> C -> F.
    assert_eq!(rows[2][0].min_path, Some(5));
    assert_eq!(rows[2][1].min_path, Some(6));
}

#[test]
fn matches_brute_force_enumeration() {
    // Full bipartite 3-row graph; every path is enumerated by hand below.
    let mut rows = vec![
        vec![
            Node::new(vec![Edge::new(7, 0), Edge::new(2, 1)]),
            Node::new(vec![Edge::new(3, 0), Edge::new(8, 1)]),
        ],
        vec![
            Node::new(vec![Edge::new(4, 0), Edge::new(1, 1)]),
            Node::new(vec![Edge::new(9, 0), Edge::new(5, 1)]),
        ],
        vec![Node::new(vec![]), Node::new(vec![])],
    ];
    let all_path_costs = vec![
        7 + 4,
        7 + 1,
        2 + 9,
        2 + 5,
        3 + 4,
        3 + 1,
        8 + 9,
        8 + 5,
    ];
    let result = min_path_cost(&mut rows);
    let best = *all_path_costs.iter().min().unwrap();
    assert_eq!(result, Some(best));
    assert_eq!(result, Some(4));
    // The result never exceeds the weight of any existing path.
    for cost in all_path_costs {
        assert!(result.unwrap() <= cost);
    }
}

#[test]
fn middle_row_dead_end_contributes_nothing() {
    // Row 1 holds a node with no outgoing edges: the cheap hop into it leads
    // nowhere, and the sweep must fall back on the dearer through route.
    let a = Node::new(vec![Edge::new(1, 0), Edge::new(5, 1)]);
    let dead_end = Node::new(vec![]);
    let through = Node::new(vec![Edge::new(1, 0)]);
    let t = Node::new(vec![]);
    let mut rows = vec![vec![a], vec![dead_end, through], vec![t]];
    assert_eq!(min_path_cost(&mut rows), Some(6));
}

#[test]
fn disconnected_node_never_contributes() {
    // Row 1 holds a node nothing points at; its zero-weight edge to the
    // terminal row must not show up in the result.
    let a = Node::new(vec![Edge::new(5, 0)]);
    let b = Node::new(vec![Edge::new(5, 0)]);
    let stranded = Node::new(vec![Edge::new(0, 0)]);
    let t = Node::new(vec![]);
    let mut rows = vec![vec![a], vec![b, stranded], vec![t]];
    assert_eq!(min_path_cost(&mut rows), Some(10));
    assert_eq!(rows[1][1].min_path, None);
}

#[test]
fn unreachable_terminal_row_absent() {
    let a = Node::new(vec![]);
    let t = Node::new(vec![]);
    let mut rows = vec![vec![a], vec![t]];
    assert_eq!(min_path_cost(&mut rows), None);
}

#[test]
fn zero_weight_path_is_zero_not_absent() {
    let a = Node::new(vec![Edge::new(0, 0)]);
    let t = Node::new(vec![]);
    let mut rows = vec![vec![a], vec![t]];
    assert_eq!(min_path_cost(&mut rows), Some(0));
}

#[test]
fn solving_twice_gives_the_same_result() {
    let a = Node::new(vec![Edge::new(2, 0), Edge::new(3, 1)]);
    let d = Node::new(vec![Edge::new(0, 0), Edge::new(1, 1)]);
    let b = Node::new(vec![Edge::new(6, 0)]);
    let c = Node::new(vec![Edge::new(4, 0), Edge::new(5, 1)]);
    let e = Node::new(vec![]);
    let f = Node::new(vec![]);
    let mut rows = vec![vec![a, d], vec![b, c], vec![e, f]];
    let first = min_path_cost(&mut rows);
    // No reset of any `min_path` in between: the second sweep runs on the
    // already settled graph.
    let second = min_path_cost(&mut rows);
    assert_eq!(first, Some(5));
    assert_eq!(second, first);
    assert_eq!(rows[2][0].min_path, Some(5));
    assert_eq!(rows[2][1].min_path, Some(6));
}
