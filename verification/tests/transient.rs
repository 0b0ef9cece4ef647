use gazflow::network::{ConnectionKind, GasNetwork, Node, Pipe};
use gazflow::transient::{
    apply_event, equipment_fixed_nodes, spatial_initial_states, is_pde_eligible, pde_topology, validate_config,
    validate_events, ConfigFault, EquipmentLink, EquipmentRole, EventEffect, EventFault, PdeTopologyError, TransientControl, TransientEvent,
    TransientMode,
};

fn node(id: &str, fixed: bool) -> Node {
    Node { id: id.to_string(), has_fixed_pressure: fixed }
}

fn pipe(id: &str, from: &str, to: &str, kind: ConnectionKind) -> Pipe {
    Pipe {
        id: id.to_string(),
        from: from.to_string(),
        to: to.to_string(),
        kind,
        is_open: true,
        control_valve_shut: false,
    }
}

fn two_node_network() -> GasNetwork {
    GasNetwork {
        nodes: vec![node("SRC", true), node("SK", false)],
        pipes: vec![pipe("P1", "SRC", "SK", ConnectionKind::Pipe)],
    }
}

#[test]
fn transient_mode_defaults_to_quasi_steady() {
    assert_eq!(TransientMode::default(), TransientMode::QuasiSteady);
    assert_ne!(TransientControl::Continue, TransientControl::Cancel);
}

#[test]
fn picard_relax_fault_is_reported_after_the_other_checks() {
    assert_eq!(validate_config(true, true, Some(12), false), Err(ConfigFault::PicardRelax));
}

#[test]
fn config_faults_come_in_check_order() {
    assert_eq!(validate_config(false, false, Some(0), false), Err(ConfigFault::Duration));
    assert_eq!(validate_config(true, false, Some(0), false), Err(ConfigFault::TimeStep));
    assert_eq!(validate_config(true, true, Some(0), false), Err(ConfigFault::ZeroCells));
    assert_eq!(validate_config(true, true, None, true), Ok(()));
    assert_eq!(validate_config(true, true, Some(1), true), Ok(()));
}

#[test]
fn events_report_first_fault_with_position() {
    let net = two_node_network();
    let events = vec![
        TransientEvent::DemandChange { node_id: "SK".into(), time_valid: true, demand_finite: true },
        TransientEvent::ValveClose { pipe_id: "nope".into(), time_valid: true },
        TransientEvent::DemandChange { node_id: "SK".into(), time_valid: false, demand_finite: true },
    ];
    assert_eq!(validate_events(&net, &events), Err((1, EventFault::UnknownValvePipe)));
    assert_eq!(validate_events(&net, &events[..1].iter().map(clone_event).collect()), Ok(()));
}

fn clone_event(e: &TransientEvent) -> TransientEvent {
    match e {
        TransientEvent::ValveClose { pipe_id, time_valid } => {
            TransientEvent::ValveClose { pipe_id: pipe_id.clone(), time_valid: *time_valid }
        }
        TransientEvent::DemandChange { node_id, time_valid, demand_finite } => {
            TransientEvent::DemandChange {
                node_id: node_id.clone(),
                time_valid: *time_valid,
                demand_finite: *demand_finite,
            }
        }
        TransientEvent::RegulatorSetpoint { pipe_id, time_valid, setpoint_valid } => {
            TransientEvent::RegulatorSetpoint {
                pipe_id: pipe_id.clone(),
                time_valid: *time_valid,
                setpoint_valid: *setpoint_valid,
            }
        }
    }
}

#[test]
fn every_event_fault_has_an_input() {
    let net = two_node_network();
    let check = |e: TransientEvent| validate_events(&net, &vec![e]);
    assert_eq!(
        check(TransientEvent::ValveClose { pipe_id: "P1".into(), time_valid: false }),
        Err((0, EventFault::InvalidTime))
    );
    assert_eq!(
        check(TransientEvent::DemandChange { node_id: "X".into(), time_valid: true, demand_finite: true }),
        Err((0, EventFault::UnknownDemandNode))
    );
    assert_eq!(
        check(TransientEvent::DemandChange { node_id: "SK".into(), time_valid: true, demand_finite: false }),
        Err((0, EventFault::NonFiniteDemand))
    );
    assert_eq!(
        check(TransientEvent::RegulatorSetpoint { pipe_id: "X".into(), time_valid: true, setpoint_valid: true }),
        Err((0, EventFault::UnknownSetpointPipe))
    );
    assert_eq!(
        check(TransientEvent::RegulatorSetpoint { pipe_id: "P1".into(), time_valid: true, setpoint_valid: false }),
        Err((0, EventFault::InvalidSetpoint))
    );
}

#[test]
fn valve_close_event_closes_and_shuts_control_valve() {
    let mut net = GasNetwork {
        nodes: vec![node("S", true), node("D", false)],
        pipes: vec![pipe("CV", "S", "D", ConnectionKind::ControlValve)],
    };
    let eff = apply_event(&mut net, &TransientEvent::ValveClose { pipe_id: "CV".into(), time_valid: true });
    assert_eq!(eff, Ok(EventEffect::PipeClosed(0)));
    assert!(!net.pipes[0].is_open);
    assert!(net.pipes[0].control_valve_shut);
    let eff = apply_event(&mut net, &TransientEvent::ValveClose { pipe_id: "none".into(), time_valid: true });
    assert_eq!(eff, Err(EventFault::UnknownValvePipe));
}

#[test]
fn demand_and_setpoint_events_report_their_target() {
    let mut net = two_node_network();
    assert_eq!(
        apply_event(&mut net, &TransientEvent::DemandChange { node_id: "SK".into(), time_valid: true, demand_finite: true }),
        Ok(EventEffect::DemandReplaced)
    );
    assert_eq!(
        apply_event(&mut net, &TransientEvent::RegulatorSetpoint { pipe_id: "P1".into(), time_valid: true, setpoint_valid: true }),
        Ok(EventEffect::SetpointReplaced(0))
    );
    assert!(net.pipes[0].is_open);
}

#[test]
fn pde_topology_of_single_pipe_is_a_tree() {
    let topo = pde_topology(&two_node_network()).ok().expect("eligible");
    assert_eq!(topo.pipe_ids, vec!["P1".to_string()]);
    assert!(topo.is_tree);
    assert!(topo.equipment.is_empty());
}

#[test]
fn pde_topology_sorts_ids_and_detects_cycles_and_equipment() {
    let net = GasNetwork {
        nodes: vec![node("SRC", true), node("MID", false), node("SK", false), node("LP", false)],
        pipes: vec![
            pipe("P2", "SRC", "MID", ConnectionKind::Pipe),
            pipe("P10", "MID", "SK", ConnectionKind::Pipe),
            pipe("P1", "SRC", "SK", ConnectionKind::ShortPipe),
            pipe("REG", "SK", "LP", ConnectionKind::PressureRegulator),
            pipe("CS", "SRC", "LP", ConnectionKind::CompressorStation),
        ],
    };
    let topo = pde_topology(&net).ok().expect("eligible");
    assert_eq!(topo.pipe_ids, vec!["P1".to_string(), "P10".to_string(), "P2".to_string()]);
    assert!(!topo.is_tree);
    assert_eq!(topo.equipment.len(), 2);
    assert_eq!(topo.equipment[0].pipe_index, 3);
    assert_eq!(topo.equipment[0].role, EquipmentRole::Regulator);
    assert_eq!(topo.equipment[1].role, EquipmentRole::Compressor);
}

#[test]
fn pde_topology_refusals() {
    let mut closed = two_node_network();
    closed.pipes[0].is_open = false;
    assert_eq!(pde_topology(&closed).err(), Some(PdeTopologyError::NoActivePipe));

    let only_reg = GasNetwork {
        nodes: vec![node("A", true), node("B", false)],
        pipes: vec![pipe("R", "A", "B", ConnectionKind::PressureRegulator)],
    };
    assert_eq!(pde_topology(&only_reg).err(), Some(PdeTopologyError::NoMeshablePipe));

    let split = GasNetwork {
        nodes: vec![node("A", true), node("B", false), node("C", false), node("D", false)],
        pipes: vec![
            pipe("P1", "A", "B", ConnectionKind::Pipe),
            pipe("P2", "C", "D", ConnectionKind::Pipe),
        ],
    };
    assert_eq!(pde_topology(&split).err(), Some(PdeTopologyError::Disconnected));
    assert!(!is_pde_eligible(&split));

    let floating = GasNetwork {
        nodes: vec![node("A", false), node("B", false)],
        pipes: vec![pipe("P1", "A", "B", ConnectionKind::Pipe)],
    };
    assert_eq!(pde_topology(&floating).err(), Some(PdeTopologyError::NoFixedPressureAnchor));
}

#[test]
fn shut_control_valve_is_not_active() {
    let mut net = GasNetwork {
        nodes: vec![node("S", true), node("M", false), node("D", false)],
        pipes: vec![
            pipe("P", "S", "M", ConnectionKind::Pipe),
            pipe("CV", "M", "D", ConnectionKind::ControlValve),
        ],
    };
    assert!(pde_topology(&net).ok().expect("eligible").is_tree);
    net.pipes[1].control_valve_shut = true;
    let topo = pde_topology(&net).ok().expect("still eligible");
    assert_eq!(topo.pipe_ids, vec!["P".to_string()]);
}

#[test]
fn equipment_outlets_join_the_fixed_nodes_once() {
    let link = |i: usize, from: &str, to: &str, role: EquipmentRole| EquipmentLink {
        pipe_index: i,
        from: from.to_string(),
        to: to.to_string(),
        role,
    };
    let fixed = vec!["S".to_string()];
    let equipment = vec![
        link(0, "A", "B", EquipmentRole::Regulator),
        link(1, "B", "S", EquipmentRole::Compressor),
        link(2, "C", "B", EquipmentRole::Regulator),
    ];
    let r = equipment_fixed_nodes(&fixed, &equipment);
    assert_eq!(r, vec!["S".to_string(), "B".to_string()]);
}

#[test]
fn branch_valve_close_keeps_the_pde_view_without_it() {
    // SRC -> J -> SK1, J -> SK2; closing P3 leaves the PDE view on P1 and P2.
    let mut net = GasNetwork {
        nodes: vec![node("SRC", true), node("J", false), node("SK1", false), node("SK2", false)],
        pipes: vec![
            pipe("P1", "SRC", "J", ConnectionKind::Pipe),
            pipe("P2", "J", "SK1", ConnectionKind::Pipe),
            pipe("P3", "J", "SK2", ConnectionKind::Pipe),
        ],
    };
    let before = pde_topology(&net).ok().expect("eligible before");
    assert_eq!(before.pipe_ids, vec!["P1".to_string(), "P2".to_string(), "P3".to_string()]);
    let close = TransientEvent::ValveClose { pipe_id: "P3".to_string(), time_valid: true };
    assert_eq!(apply_event(&mut net, &close).ok(), Some(EventEffect::PipeClosed(2)));
    let after = pde_topology(&net).ok().expect("eligible after");
    assert_eq!(after.pipe_ids, vec!["P1".to_string(), "P2".to_string()]);
    assert!(after.is_tree);
}

#[test]
fn closing_the_only_pipe_leaves_nothing_to_mesh() {
    let mut net = two_node_network();
    let close = TransientEvent::ValveClose { pipe_id: "P1".to_string(), time_valid: true };
    assert_eq!(apply_event(&mut net, &close).ok(), Some(EventEffect::PipeClosed(0)));
    assert_eq!(pde_topology(&net).err(), Some(PdeTopologyError::NoActivePipe));
    assert!(!is_pde_eligible(&net));
}

#[test]
fn validated_events_apply_in_sequence() {
    let mut net = GasNetwork {
        nodes: vec![node("SRC", true), node("SK", false)],
        pipes: vec![
            pipe("P1", "SRC", "SK", ConnectionKind::Pipe),
            pipe("R1", "SRC", "SK", ConnectionKind::PressureRegulator),
        ],
    };
    let events = vec![
        TransientEvent::ValveClose { pipe_id: "P1".to_string(), time_valid: true },
        TransientEvent::RegulatorSetpoint { pipe_id: "P1".to_string(), time_valid: true, setpoint_valid: true },
        TransientEvent::ValveClose { pipe_id: "R1".to_string(), time_valid: true },
        TransientEvent::DemandChange { node_id: "SK".to_string(), time_valid: true, demand_finite: true },
    ];
    assert!(validate_events(&net, &events).is_ok());
    for e in &events {
        assert!(apply_event(&mut net, e).is_ok());
    }
    assert!(net.pipes.iter().all(|p| !p.is_open));
}

#[test]
fn supplied_spatial_states_fit_only_matching_meshes() {
    let ids = vec!["P1".to_string(), "P2".to_string(), "P3".to_string()];
    let cells = vec![4, 2, 3];
    let supplied = vec!["P2".to_string(), "P1".to_string(), "P9".to_string()];
    let lens = vec![(2, 3), (4, 4), (3, 4)];
    assert_eq!(spatial_initial_states(&ids, &cells, &supplied, &lens), vec![None, Some(0), None]);
}
