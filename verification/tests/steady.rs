use gazflow::network::{fixed_pressure_node_set, has_pipe, ConnectionKind, GasNetwork, Node, Pipe};
use gazflow::steady::{
    alias_plan, nomination_candidates, starts_with_bytes,
    collect_active_regulator_nodes, demand_positions, free_unknowns, index_links, jacobian_sparsity, physical_init_iters,
    regulator_free_neighbours, regulator_incidents, resolve_alias_roots, upstream_pressure_trace,
    SolverControl,
};

fn node(id: &str, fixed: bool) -> Node {
    Node { id: id.to_string(), has_fixed_pressure: fixed }
}

fn pipe(id: &str, from: &str, to: &str, kind: ConnectionKind) -> Pipe {
    Pipe {
        id: id.to_string(),
        from: from.to_string(),
        to: to.to_string(),
        kind,
        is_open: true,
        control_valve_shut: false,
    }
}

fn chain() -> GasNetwork {
    GasNetwork {
        nodes: vec![node("S", true), node("A", false), node("B", false), node("C", false)],
        pipes: vec![
            pipe("P1", "S", "A", ConnectionKind::Pipe),
            pipe("P2", "A", "B", ConnectionKind::Pipe),
            pipe("P3", "B", "C", ConnectionKind::Pipe),
            pipe("P4", "S", "B", ConnectionKind::Pipe),
        ],
    }
}

#[test]
fn solver_control_variants_differ() {
    assert_ne!(SolverControl::Continue, SolverControl::Cancel);
}

#[test]
fn upstream_trace_walks_breadth_first_within_hops() {
    let net = chain();
    let trace = upstream_pressure_trace(&net, &"C".to_string(), 1);
    assert_eq!(trace, vec!["C".to_string(), "B".to_string()]);
    let trace = upstream_pressure_trace(&net, &"C".to_string(), 5);
    assert_eq!(
        trace,
        vec!["C".to_string(), "B".to_string(), "A".to_string(), "S".to_string()]
    );
    let trace = upstream_pressure_trace(&net, &"C".to_string(), 0);
    assert_eq!(trace, vec!["C".to_string()]);
}

#[test]
fn upstream_trace_skips_closed_connections_and_unknown_starts() {
    let mut net = chain();
    net.pipes[2].is_open = false;
    assert_eq!(upstream_pressure_trace(&net, &"C".to_string(), 4), vec!["C".to_string()]);
    assert_eq!(upstream_pressure_trace(&net, &"Z".to_string(), 4), vec!["Z".to_string()]);
}

#[test]
fn active_regulator_nodes_are_sorted_fixed_outlets() {
    let net = GasNetwork {
        nodes: vec![node("S", true), node("M", false), node("D", false), node("E", false)],
        pipes: vec![
            pipe("DS", "M", "E", ConnectionKind::DeliveryStation),
            pipe("R", "S", "M", ConnectionKind::PressureRegulator),
            pipe("CV", "M", "D", ConnectionKind::ControlValve),
        ],
    };
    let fixed = vec![true, true, true, false];
    assert_eq!(collect_active_regulator_nodes(&net, &fixed, false), vec![1, 2]);
    assert_eq!(collect_active_regulator_nodes(&net, &fixed, true), vec![1]);
}

#[test]
fn alias_roots_point_at_chain_ends() {
    let roots = resolve_alias_roots(&vec![1, 2, 2, 3, 3]);
    assert_eq!(roots, vec![2, 2, 2, 3, 3]);
}

#[test]
fn free_unknowns_skip_fixed_and_aliased_nodes() {
    let (free, pos) = free_unknowns(&vec![true, false, false, false], &vec![0, 1, 1, 3]);
    assert_eq!(free, vec![1, 3]);
    assert_eq!(pos, vec![usize::MAX, 0, usize::MAX, 1]);
}

#[test]
fn jacobian_pattern_is_sorted_and_unique() {
    let free_pos = vec![usize::MAX, 0, 1, 2];
    let links = vec![(0, 1), (1, 2), (2, 1), (3, 3)];
    let pattern = jacobian_sparsity(&links, &free_pos, 3);
    assert_eq!(pattern, vec![(0, 0), (0, 1), (1, 0), (1, 1), (2, 2)]);
}

#[test]
fn jacobian_pattern_is_symmetric() {
    let free_pos = vec![0, usize::MAX, 1, 2, 3];
    let links = vec![(0, 2), (2, 3), (1, 4), (4, 0), (3, 3)];
    let pattern = jacobian_sparsity(&links, &free_pos, 4);
    for &(r, c) in &pattern {
        assert!(pattern.contains(&(c, r)));
    }
    assert!(pattern.contains(&(3, 0)) && pattern.contains(&(0, 3)));
    assert!(pattern.contains(&(1, 2)) && pattern.contains(&(2, 1)));
}

#[test]
fn physical_init_iterations_by_size() {
    assert_eq!(physical_init_iters(100, None), 0);
    assert_eq!(physical_init_iters(151, None), 12);
    assert_eq!(physical_init_iters(2001, None), 4);
    assert_eq!(physical_init_iters(2001, Some(7)), 7);
}

#[test]
fn fixed_nodes_and_pipe_lookup() {
    let net = chain();
    assert_eq!(fixed_pressure_node_set(&net), vec!["S".to_string()]);
    assert!(has_pipe(&net, &"P3".to_string()));
    assert!(!has_pipe(&net, &"P9".to_string()));
}

#[test]
fn regulator_couples_to_its_free_neighbours() {
    let usize_max = usize::MAX;
    let free_pos = vec![0, usize_max, 1, 2];
    let links = vec![(3, 1), (1, 0), (2, 1), (1, 1), (0, 2), (1, 3)];
    let incidents = regulator_incidents(&links, &free_pos, 1);
    assert_eq!(incidents, vec![(0, 3, false), (1, 0, true), (2, 2, false), (5, 3, true)]);
    assert_eq!(regulator_free_neighbours(&incidents), vec![0, 2, 3]);
}

#[test]
fn upstream_trace_lists_each_level_in_discovery_order() {
    let net = GasNetwork {
        nodes: vec![
            node("X", false),
            node("A", false),
            node("B", false),
            node("C", true),
            node("D", true),
            node("E", true),
        ],
        pipes: vec![
            pipe("P1", "A", "X", ConnectionKind::Pipe),
            pipe("P2", "B", "X", ConnectionKind::Pipe),
            pipe("P3", "C", "A", ConnectionKind::Pipe),
            pipe("P4", "D", "B", ConnectionKind::Pipe),
            pipe("P5", "E", "A", ConnectionKind::Pipe),
        ],
    };
    let trace = upstream_pressure_trace(&net, &"X".to_string(), 2);
    assert_eq!(trace, vec!["X", "A", "B", "C", "E", "D"]);
    let short = upstream_pressure_trace(&net, &"X".to_string(), 1);
    assert_eq!(short, vec!["X", "A", "B"]);
}

#[test]
fn index_links_keep_active_known_unmerged_connections() {
    let mut closed = pipe("P4", "A", "C", ConnectionKind::Pipe);
    closed.is_open = false;
    let net = GasNetwork {
        nodes: vec![node("A", true), node("B", false), node("C", false)],
        pipes: vec![
            pipe("P1", "A", "B", ConnectionKind::ShortPipe),
            pipe("P2", "B", "C", ConnectionKind::Pipe),
            pipe("P3", "C", "X", ConnectionKind::Pipe),
            closed,
            pipe("C5", "C", "A", ConnectionKind::CompressorStation),
        ],
    };
    let resolve = vec![0, 0, 2];
    assert_eq!(index_links(&net, &resolve, false), vec![(1, 0, 2), (4, 2, 0)]);
    assert_eq!(index_links(&net, &resolve, true), vec![(1, 0, 2)]);
}

#[test]
fn demand_positions_find_nodes_or_the_first_unknown() {
    let net = GasNetwork {
        nodes: vec![node("A", true), node("B", false), node("C", false), node("B", false)],
        pipes: vec![],
    };
    let ids = vec!["C".to_string(), "A".to_string(), "B".to_string()];
    assert_eq!(demand_positions(&net, &ids), Ok(vec![2, 0, 3]));
    let bad = vec!["A".to_string(), "Z".to_string(), "Q".to_string()];
    assert_eq!(demand_positions(&net, &bad), Err(1));
}

#[test]
fn regulator_outlet_is_the_last_node_with_its_id() {
    let net = GasNetwork {
        nodes: vec![node("S", true), node("R", true), node("R", true)],
        pipes: vec![pipe("REG", "S", "R", ConnectionKind::PressureRegulator)],
    };
    let fixed = vec![true, true, true];
    assert_eq!(collect_active_regulator_nodes(&net, &fixed, false), vec![2]);
}

#[test]
fn alias_plan_merges_pairs_then_couples_compressors() {
    let net = GasNetwork {
        nodes: vec![
            node("src_a", false),
            node("snk_a", false),
            node("src_b", true),
            node("snk_b", false),
            node("in", true),
            node("out", false),
        ],
        pipes: vec![
            pipe("CS1", "in", "out", ConnectionKind::CompressorStation),
            pipe("CS2", "in", "out", ConnectionKind::CompressorStation),
            pipe("P3", "in", "snk_a", ConnectionKind::Pipe),
            pipe("CS4", "snk_a", "src_a", ConnectionKind::CompressorStation),
            pipe("CS5", "in", "snk_b", ConnectionKind::CompressorStation),
        ],
    };
    let pairs = vec![
        ("src_a".to_string(), "snk_a".to_string()),
        ("src_b".to_string(), "snk_b".to_string()),
        ("zz".to_string(), "snk_a".to_string()),
    ];
    let ratio_ok = vec![true, true, true, true, false];
    let (parent, slaves) = alias_plan(&net, &pairs, &ratio_ok, true, true);
    assert_eq!(parent, vec![1, 1, 2, 3, 4, 4]);
    assert_eq!(slaves, vec![(0, 1, None), (5, 4, Some(0))]);
    let (plain, none) = alias_plan(&net, &pairs, &ratio_ok, false, false);
    assert_eq!(plain, vec![0, 1, 2, 3, 4, 5]);
    assert!(none.is_empty());
    assert_eq!(resolve_alias_roots(&parent), vec![1, 1, 2, 3, 4, 4]);
}

#[test]
fn nomination_candidates_are_free_named_boundaries() {
    let net = GasNetwork {
        nodes: vec![
            node("source_1", false),
            node("sink_2", true),
            node("sink_3", false),
            node("sinkX", false),
            node("source_5", false),
            node("node_6", false),
        ],
        pipes: vec![],
    };
    let excluded = vec!["sink_3".to_string()];
    assert_eq!(nomination_candidates(&net, &excluded), vec![0, 4]);
    assert!(starts_with_bytes(&"sink_9".to_string(), "sink_"));
    assert!(!starts_with_bytes(&"sin".to_string(), "sink_"));
}
