use gazflow::contingency::{
    apply_contingency, finalize_contingency_report, generate_n_minus_1_cases, monitored_node_ids,
    CaseVerdict, ContingencyAction, ContingencyCase, ContingencyElementType,
};
use gazflow::network::{ConnectionKind, GasNetwork, Node, Pipe};

fn node(id: &str, fixed: bool) -> Node {
    Node { id: id.to_string(), has_fixed_pressure: fixed }
}

fn pipe(id: &str, from: &str, to: &str, kind: ConnectionKind) -> Pipe {
    Pipe {
        id: id.to_string(),
        from: from.to_string(),
        to: to.to_string(),
        kind,
        is_open: true,
        control_valve_shut: false,
    }
}

fn contingency_test_network() -> GasNetwork {
    GasNetwork {
        nodes: vec![node("S", true), node("D", false)],
        pipes: vec![
            pipe("C1", "S", "D", ConnectionKind::CompressorStation),
            pipe("V1", "S", "D", ConnectionKind::Valve),
        ],
    }
}

fn case(id: &str, element_type: ContingencyElementType, action: ContingencyAction) -> ContingencyCase {
    ContingencyCase { element_id: id.to_string(), element_type, action }
}

#[test]
fn contingency_generate_cases_covers_expected_assets() {
    let network = contingency_test_network();
    let cases = generate_n_minus_1_cases(&network);

    assert!(cases.iter().any(|c| {
        c.element_id == "C1"
            && c.element_type == ContingencyElementType::Compressor
            && c.action == ContingencyAction::RemovePipe
    }));
    assert!(cases.iter().any(|c| {
        c.element_id == "V1"
            && c.element_type == ContingencyElementType::Pipe
            && c.action == ContingencyAction::CloseValve
    }));
    assert!(cases.iter().any(|c| {
        c.element_id == "S"
            && c.element_type == ContingencyElementType::Source
            && c.action == ContingencyAction::DisableSource
    }));
}

#[test]
fn contingency_apply_case_closes_valve_and_disables_source() {
    let network = contingency_test_network();

    let closed = apply_contingency(
        &network,
        &case("V1", ContingencyElementType::Pipe, ContingencyAction::CloseValve),
    );
    assert!(closed.pipes.iter().find(|pipe| pipe.id == "V1").is_some_and(|pipe| !pipe.is_open));

    let source_off = apply_contingency(
        &network,
        &case("S", ContingencyElementType::Source, ContingencyAction::DisableSource),
    );
    assert_eq!(
        source_off.nodes.iter().find(|node| node.id == "S").map(|node| node.has_fixed_pressure),
        Some(false)
    );
}

#[test]
fn generate_cases_lists_compressors_then_valves_then_sources() {
    let network = GasNetwork {
        nodes: vec![node("A", true), node("B", false), node("C", true)],
        pipes: vec![
            pipe("V2", "A", "B", ConnectionKind::Valve),
            pipe("P1", "A", "B", ConnectionKind::Pipe),
            pipe("C7", "B", "C", ConnectionKind::CompressorStation),
            pipe("V3", "B", "C", ConnectionKind::Valve),
        ],
    };
    let cases = generate_n_minus_1_cases(&network);
    let ids: Vec<&str> = cases.iter().map(|c| c.element_id.as_str()).collect();
    assert_eq!(ids, vec!["C7", "V2", "V3", "A", "C"]);
    assert_eq!(cases[0].action, ContingencyAction::RemovePipe);
    assert_eq!(cases[1].action, ContingencyAction::CloseValve);
    assert_eq!(cases[4].element_type, ContingencyElementType::Source);
}

#[test]
fn remove_pipe_takes_out_only_the_named_connection() {
    let network = contingency_test_network();
    let removed = apply_contingency(
        &network,
        &case("C1", ContingencyElementType::Compressor, ContingencyAction::RemovePipe),
    );
    assert_eq!(removed.pipes.len(), 1);
    assert_eq!(removed.pipes[0].id, "V1");
    assert_eq!(removed.nodes.len(), 2);
}

#[test]
fn unknown_element_leaves_network_unchanged() {
    let network = contingency_test_network();
    for action in [
        ContingencyAction::RemovePipe,
        ContingencyAction::ClosePipe,
        ContingencyAction::DisableSource,
    ] {
        let same = apply_contingency(&network, &case("unknown", ContingencyElementType::Pipe, action));
        assert_eq!(same.pipes.len(), 2);
        assert!(same.pipes.iter().all(|p| p.is_open));
        assert!(same.nodes[0].has_fixed_pressure);
    }
}

#[test]
fn applying_a_contingency_twice_equals_once() {
    let network = contingency_test_network();
    let c = case("C1", ContingencyElementType::Compressor, ContingencyAction::RemovePipe);
    let once = apply_contingency(&network, &c);
    let twice = apply_contingency(&once, &c);
    assert_eq!(once.pipes.len(), twice.pipes.len());
    assert_eq!(twice.pipes[0].id, "V1");
    let v = case("V1", ContingencyElementType::Pipe, ContingencyAction::CloseValve);
    let once = apply_contingency(&network, &v);
    let twice = apply_contingency(&once, &v);
    assert!(once.pipes.iter().zip(twice.pipes.iter()).all(|(a, b)| a.is_open == b.is_open));
}

#[test]
fn monitored_nodes_join_withdrawals_and_delivery_outlets() {
    let network = GasNetwork {
        nodes: vec![node("S", true), node("M", false), node("D", false)],
        pipes: vec![
            pipe("P", "S", "M", ConnectionKind::Pipe),
            pipe("DS", "M", "D", ConnectionKind::DeliveryStation),
        ],
    };
    let ids = monitored_node_ids(&network, &vec!["M".to_string(), "D".to_string()]);
    assert_eq!(ids.len(), 2);
    assert!(ids.contains(&"M".to_string()));
    assert!(ids.contains(&"D".to_string()));
    let only_delivery = monitored_node_ids(&network, &vec![]);
    assert_eq!(only_delivery, vec!["D".to_string()]);
}

#[test]
fn report_splits_red_and_green_in_order() {
    let results = vec![
        CaseVerdict {
            case: case("A", ContingencyElementType::Pipe, ContingencyAction::ClosePipe),
            converged: true,
            violation_count: 0,
        },
        CaseVerdict {
            case: case("B", ContingencyElementType::Pipe, ContingencyAction::ClosePipe),
            converged: false,
            violation_count: 0,
        },
        CaseVerdict {
            case: case("C", ContingencyElementType::Pipe, ContingencyAction::ClosePipe),
            converged: true,
            violation_count: 2,
        },
    ];
    let report = finalize_contingency_report(results);
    assert_eq!(report.results.len(), 3);
    let red: Vec<&str> = report.red_cases.iter().map(|c| c.element_id.as_str()).collect();
    let green: Vec<&str> = report.green_cases.iter().map(|c| c.element_id.as_str()).collect();
    assert_eq!(red, vec!["B", "C"]);
    assert_eq!(green, vec!["A"]);
}

#[test]
fn every_generated_case_puts_its_element_out_of_service() {
    let network = GasNetwork {
        nodes: vec![node("S1", true), node("S2", true), node("J", false), node("D", false)],
        pipes: vec![
            pipe("P1", "S1", "J", ConnectionKind::Pipe),
            pipe("C1", "S2", "J", ConnectionKind::CompressorStation),
            pipe("V1", "J", "D", ConnectionKind::Valve),
            pipe("V2", "J", "D", ConnectionKind::Valve),
        ],
    };
    let cases = generate_n_minus_1_cases(&network);
    assert_eq!(cases.len(), 5);
    for c in &cases {
        let after = apply_contingency(&network, c);
        match c.action {
            ContingencyAction::RemovePipe => {
                assert!(after.pipes.iter().all(|p| p.id != c.element_id));
                assert_eq!(after.pipes.len(), network.pipes.len() - 1);
            }
            ContingencyAction::CloseValve | ContingencyAction::ClosePipe => {
                assert!(after.pipes.iter().filter(|p| p.id == c.element_id).all(|p| !p.is_open));
                assert_eq!(after.pipes.iter().filter(|p| p.is_open).count(), network.pipes.len() - 1);
            }
            ContingencyAction::DisableSource => {
                assert!(after.nodes.iter().filter(|n| n.id == c.element_id).all(|n| !n.has_fixed_pressure));
                assert_eq!(after.nodes.iter().filter(|n| n.has_fixed_pressure).count(), 1);
            }
        }
    }
}
