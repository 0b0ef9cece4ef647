//! Transient simulation logic that does not depend on the numerical scheme:
//! simulation mode and streaming control, configuration and event validation,
//! the topological effect of an event, and the analysis that decides whether a
//! network can be simulated by the 1-D PDE scheme.

use vstd::prelude::*;
use crate::order::{sort_strings, sorted_strs};
use crate::contingency::push_unique;
use crate::reach::{
    bfs_within, edge_views, has_edge, lemma_reachable_symmetric, lemma_reachable_transitive,
    reachable, symmetric_edges,
};
use crate::network::{
    ConnectionKind, GasNetwork, NetworkModel, PipeModel, contains_string, has_node_id, has_pipe_id,
    hydraulically_active, is_first_pipe_with_id, pipe_models, string_views,
};

verus! {

/// Time-integration scheme of a transient simulation.
#[derive(Clone, Copy, Debug, PartialEq, Eq, Structural)]
pub enum TransientMode {
    QuasiSteady,
    Pde,
}

impl Default for TransientMode {
    fn default() -> (r: Self)
        ensures
            r == TransientMode::QuasiSteady,
    {
        TransientMode::QuasiSteady
    }
}

/// Streaming decision returned after each transient step.
#[derive(Clone, Copy, Debug, PartialEq, Eq, Structural)]
pub enum TransientControl {
    Continue,
    Cancel,
}

/// Reason a transient configuration is refused.
#[derive(Clone, Copy, Debug, PartialEq, Eq, Structural)]
pub enum ConfigFault {
    /// `duration_s` is not finite and positive.
    Duration,
    /// `dt_s` is not finite and positive.
    TimeStep,
    /// `n_cells_per_pipe` is zero.
    ZeroCells,
    /// `picard_relax` is given and not finite in `(0, 1]`.
    PicardRelax,
}

/// Checks a transient configuration in the order duration, time step, cell
/// count, Picard relaxation, reporting the first fault. The numeric tests of the
/// durations and of the relaxation factor are passed in as their outcomes.
pub fn validate_config(
    duration_valid: bool,
    dt_valid: bool,
    n_cells_per_pipe: Option<usize>,
    picard_relax_valid: bool,
) -> (r: Result<(), ConfigFault>)
    ensures
        r == (if !duration_valid {
            Err(ConfigFault::Duration)
        } else if !dt_valid {
            Err(ConfigFault::TimeStep)
        } else if n_cells_per_pipe == Some(0usize) {
            Err(ConfigFault::ZeroCells)
        } else if !picard_relax_valid {
            Err(ConfigFault::PicardRelax)
        } else {
            Ok(())
        }),
{
    if !duration_valid {
        return Err(ConfigFault::Duration);
    }
    if !dt_valid {
        return Err(ConfigFault::TimeStep);
    }
    match n_cells_per_pipe {
        Some(0) => {
            return Err(ConfigFault::ZeroCells);
        },
        _ => {},
    }
    if !picard_relax_valid {
        return Err(ConfigFault::PicardRelax);
    }
    Ok(())
}

/// A scheduled change of the network or of the demands.
///
/// `time_valid` records that the event time is finite and non-negative;
/// `demand_finite` that a new demand is finite; `setpoint_valid` that a new
/// regulator set-point is finite and positive.
pub enum TransientEvent {
    ValveClose { pipe_id: String, time_valid: bool },
    DemandChange { node_id: String, time_valid: bool, demand_finite: bool },
    RegulatorSetpoint { pipe_id: String, time_valid: bool, setpoint_valid: bool },
}

pub enum EventModel {
    ValveClose { pipe_id: Seq<char>, time_valid: bool },
    DemandChange { node_id: Seq<char>, time_valid: bool, demand_finite: bool },
    RegulatorSetpoint { pipe_id: Seq<char>, time_valid: bool, setpoint_valid: bool },
}

impl View for TransientEvent {
    type V = EventModel;

    open spec fn view(&self) -> EventModel {
        match self {
            TransientEvent::ValveClose { pipe_id, time_valid } => EventModel::ValveClose {
                pipe_id: pipe_id@,
                time_valid: *time_valid,
            },
            TransientEvent::DemandChange { node_id, time_valid, demand_finite } =>
                EventModel::DemandChange {
                node_id: node_id@,
                time_valid: *time_valid,
                demand_finite: *demand_finite,
            },
            TransientEvent::RegulatorSetpoint { pipe_id, time_valid, setpoint_valid } =>
                EventModel::RegulatorSetpoint {
                pipe_id: pipe_id@,
                time_valid: *time_valid,
                setpoint_valid: *setpoint_valid,
            },
        }
    }
}

/// Reason an event is refused.
#[derive(Clone, Copy, Debug, PartialEq, Eq, Structural)]
pub enum EventFault {
    /// The event time is not finite and non-negative.
    InvalidTime,
    /// A valve closure names no connection of the network.
    UnknownValvePipe,
    /// A demand change names no node of the network.
    UnknownDemandNode,
    /// A demand change carries a non-finite demand.
    NonFiniteDemand,
    /// A set-point change names no connection of the network.
    UnknownSetpointPipe,
    /// A set-point change carries a set-point that is not finite and positive.
    InvalidSetpoint,
}

/// The first fault of one event, checked in the order time, target, value.
pub open spec fn event_fault(net: NetworkModel, e: EventModel) -> Option<EventFault> {
    match e {
        EventModel::ValveClose { pipe_id, time_valid } => if !time_valid {
            Some(EventFault::InvalidTime)
        } else if !has_pipe_id(net.pipes, pipe_id) {
            Some(EventFault::UnknownValvePipe)
        } else {
            None
        },
        EventModel::DemandChange { node_id, time_valid, demand_finite } => if !time_valid {
            Some(EventFault::InvalidTime)
        } else if !has_node_id(net.nodes, node_id) {
            Some(EventFault::UnknownDemandNode)
        } else if !demand_finite {
            Some(EventFault::NonFiniteDemand)
        } else {
            None
        },
        EventModel::RegulatorSetpoint { pipe_id, time_valid, setpoint_valid } => if !time_valid {
            Some(EventFault::InvalidTime)
        } else if !has_pipe_id(net.pipes, pipe_id) {
            Some(EventFault::UnknownSetpointPipe)
        } else if !setpoint_valid {
            Some(EventFault::InvalidSetpoint)
        } else {
            None
        },
    }
}

pub open spec fn event_models(events: Seq<TransientEvent>) -> Seq<EventModel> {
    events.map_values(|e: TransientEvent| e@)
}

fn check_event(network: &GasNetwork, event: &TransientEvent) -> (r: Option<EventFault>)
    ensures
        r == event_fault(network@, event@),
{
    match event {
        TransientEvent::ValveClose { pipe_id, time_valid } => {
            if !*time_valid {
                Some(EventFault::InvalidTime)
            } else if network.pipe_position(pipe_id).is_none() {
                Some(EventFault::UnknownValvePipe)
            } else {
                None
            }
        },
        TransientEvent::DemandChange { node_id, time_valid, demand_finite } => {
            if !*time_valid {
                Some(EventFault::InvalidTime)
            } else if network.node_position(node_id).is_none() {
                Some(EventFault::UnknownDemandNode)
            } else if !*demand_finite {
                Some(EventFault::NonFiniteDemand)
            } else {
                None
            }
        },
        TransientEvent::RegulatorSetpoint { pipe_id, time_valid, setpoint_valid } => {
            if !*time_valid {
                Some(EventFault::InvalidTime)
            } else if network.pipe_position(pipe_id).is_none() {
                Some(EventFault::UnknownSetpointPipe)
            } else if !*setpoint_valid {
                Some(EventFault::InvalidSetpoint)
            } else {
                None
            }
        },
    }
}

/// Validates events in order and reports the first fault found, with the
/// position of the faulty event.
pub fn validate_events(network: &GasNetwork, events: &Vec<TransientEvent>) -> (r: Result<
    (),
    (usize, EventFault),
>)
    ensures
        match r {
            Ok(()) => forall|i: int|
                0 <= i < events@.len() ==> event_fault(network@, #[trigger] events@[i]@) is None,
            Err((i, f)) => i < events@.len() && event_fault(network@, events@[i as int]@) == Some(f)
                && forall|j: int|
                0 <= j < i ==> event_fault(network@, #[trigger] events@[j]@) is None,
        },
{
    let mut i: usize = 0;
    while i < events.len()
        invariant
            0 <= i <= events@.len(),
            forall|j: int| 0 <= j < i ==> event_fault(network@, #[trigger] events@[j]@) is None,
        decreases events@.len() - i,
    {
        match check_event(network, &events[i]) {
            Some(f) => {
                return Err((i, f));
            },
            None => {},
        }
        i = i + 1;
    }
    Ok(())
}

/// What an accepted event changed.
#[derive(Clone, Copy, Debug, PartialEq, Eq, Structural)]
pub enum EventEffect {
    /// The connection at this position was closed.
    PipeClosed(usize),
    /// The demand of the named node is to be replaced by the event's demand.
    DemandReplaced,
    /// The set-point of the connection at this position is to be replaced.
    SetpointReplaced(usize),
}

/// A connection after a valve-closure event: closed, and a control valve also
/// shut at 0 %.
pub open spec fn closed_by_event(p: PipeModel) -> PipeModel {
    PipeModel {
        id: p.id,
        from: p.from,
        to: p.to,
        kind: p.kind,
        is_open: false,
        control_valve_shut: if p.kind == ConnectionKind::ControlValve {
            true
        } else {
            p.control_valve_shut
        },
    }
}

/// The element an event targets exists in the network.
pub open spec fn event_target_exists(net: NetworkModel, e: EventModel) -> bool {
    match e {
        EventModel::ValveClose { pipe_id, .. } => has_pipe_id(net.pipes, pipe_id),
        EventModel::DemandChange { node_id, .. } => has_node_id(net.nodes, node_id),
        EventModel::RegulatorSetpoint { pipe_id, .. } => has_pipe_id(net.pipes, pipe_id),
    }
}

/// An event that validation accepts names an existing element, so applying it
/// cannot fail.
pub proof fn lemma_accepted_event_has_target(net: NetworkModel, e: EventModel)
    requires
        event_fault(net, e) is None,
    ensures
        event_target_exists(net, e),
{
}

/// Closing a connection keeps every identifier, so the verdict of validation on
/// any event is the same before and after: events validated together stay
/// applicable whatever closures come first.
pub proof fn lemma_closing_keeps_event_faults(net: NetworkModel, i: int, e: EventModel)
    requires
        0 <= i < net.pipes.len(),
    ensures
        event_fault(
            NetworkModel {
                nodes: net.nodes,
                pipes: net.pipes.update(i, closed_by_event(net.pipes[i])),
            },
            e,
        ) == event_fault(net, e),
{
    let after = net.pipes.update(i, closed_by_event(net.pipes[i]));
    assert forall|id: Seq<char>| has_pipe_id(after, id) <==> has_pipe_id(net.pipes, id) by {
        if has_pipe_id(after, id) {
            let k = choose|k: int| 0 <= k < after.len() && after[k].id == id;
            assert(net.pipes[k].id == id);
        }
        if has_pipe_id(net.pipes, id) {
            let k = choose|k: int| 0 <= k < net.pipes.len() && net.pipes[k].id == id;
            assert(after[k].id == id);
        }
    }
}

/// Applies the topological part of an event to the network.
///
/// A valve closure closes the first connection with the event's identifier (and
/// shuts it at 0 % when it is a control valve). A demand change or a set-point
/// change leaves the topology as it is and reports what the numerical state
/// must change. An unknown identifier is refused and leaves the network unchanged.
pub fn apply_event(network: &mut GasNetwork, event: &TransientEvent) -> (r: Result<
    EventEffect,
    EventFault,
>)
    ensures
        match event@ {
            EventModel::ValveClose { pipe_id, .. } => match r {
                Ok(EventEffect::PipeClosed(i)) => is_first_pipe_with_id(
                    old(network)@.pipes,
                    pipe_id,
                    i as int,
                ) && final(network)@ == NetworkModel {
                    nodes: old(network)@.nodes,
                    pipes: old(network)@.pipes.update(
                        i as int,
                        closed_by_event(old(network)@.pipes[i as int]),
                    ),
                },
                Err(f) => f == EventFault::UnknownValvePipe && !has_pipe_id(
                    old(network)@.pipes,
                    pipe_id,
                ) && final(network)@ == old(network)@,
                _ => false,
            },
            EventModel::DemandChange { node_id, .. } => final(network)@ == old(network)@ && match r {
                Ok(e) => e == EventEffect::DemandReplaced && has_node_id(old(network)@.nodes, node_id),
                Err(f) => f == EventFault::UnknownDemandNode && !has_node_id(
                    old(network)@.nodes,
                    node_id,
                ),
            },
            EventModel::RegulatorSetpoint { pipe_id, .. } => final(network)@ == old(network)@
                && match r {
                Ok(EventEffect::SetpointReplaced(i)) => is_first_pipe_with_id(
                    old(network)@.pipes,
                    pipe_id,
                    i as int,
                ),
                Err(f) => f == EventFault::UnknownSetpointPipe && !has_pipe_id(
                    old(network)@.pipes,
                    pipe_id,
                ),
                _ => false,
            },
        },
{
    match event {
        TransientEvent::ValveClose { pipe_id, .. } => {
            match network.pipe_position(pipe_id) {
                Some(i) => {
                    let mut p = network.pipes[i].clone();
                    p.is_open = false;
                    if matches!(p.kind, ConnectionKind::ControlValve) {
                        p.control_valve_shut = true;
                    }
                    let ghost before = network.pipes@;
                    network.pipes.set(i, p);
                    proof {
                        assert(pipe_models(network.pipes@) =~= pipe_models(before).update(
                            i as int,
                            closed_by_event(pipe_models(before)[i as int]),
                        ));
                    }
                    Ok(EventEffect::PipeClosed(i))
                },
                None => Err(EventFault::UnknownValvePipe),
            }
        },
        TransientEvent::DemandChange { node_id, .. } => {
            if network.node_position(node_id).is_some() {
                Ok(EventEffect::DemandReplaced)
            } else {
                Err(EventFault::UnknownDemandNode)
            }
        },
        TransientEvent::RegulatorSetpoint { pipe_id, .. } => {
            match network.pipe_position(pipe_id) {
                Some(i) => Ok(EventEffect::SetpointReplaced(i)),
                None => Err(EventFault::UnknownSetpointPipe),
            }
        },
    }
}


/// Kinds the PDE scheme meshes as pipes.
pub open spec fn is_pde_meshable(kind: ConnectionKind) -> bool {
    kind == ConnectionKind::Pipe || kind == ConnectionKind::Resistor || kind == ConnectionKind::Valve
        || kind == ConnectionKind::ShortPipe
}

/// Connections the PDE scheme meshes: meshable kinds and (open) control valves.
pub open spec fn is_mesh_link(p: PipeModel) -> bool {
    is_pde_meshable(p.kind) || p.kind == ConnectionKind::ControlValve
}

/// Role of an algebraic equipment link in the PDE scheme.
#[derive(Clone, Copy, Debug, PartialEq, Eq, Structural)]
pub enum EquipmentRole {
    /// Pressure regulator or delivery station: imposes the outlet pressure.
    Regulator,
    /// Compressor station: imposes an outlet/inlet pressure ratio.
    Compressor,
}

/// An active regulator or compressor, linked algebraically.
pub struct EquipmentLink {
    pub pipe_index: usize,
    pub from: String,
    pub to: String,
    pub role: EquipmentRole,
}

pub struct EquipmentModel {
    pub pipe_index: int,
    pub from: Seq<char>,
    pub to: Seq<char>,
    pub role: EquipmentRole,
}

impl View for EquipmentLink {
    type V = EquipmentModel;

    open spec fn view(&self) -> EquipmentModel {
        EquipmentModel {
            pipe_index: self.pipe_index as int,
            from: self.from@,
            to: self.to@,
            role: self.role,
        }
    }
}

pub open spec fn equipment_models(v: Seq<EquipmentLink>) -> Seq<EquipmentModel> {
    v.map_values(|e: EquipmentLink| e@)
}

/// Role of an active connection that is not meshed.
pub open spec fn equipment_role(kind: ConnectionKind) -> EquipmentRole {
    if kind == ConnectionKind::CompressorStation {
        EquipmentRole::Compressor
    } else {
        EquipmentRole::Regulator
    }
}

/// Active connections that are not meshed, in connection order.
pub open spec fn equipment_links(pipes: Seq<PipeModel>) -> Seq<EquipmentModel>
    decreases pipes.len(),
{
    if pipes.len() == 0 {
        Seq::empty()
    } else {
        let rest = equipment_links(pipes.drop_last());
        let p = pipes.last();
        if hydraulically_active(p) && !is_mesh_link(p) {
            rest.push(
                EquipmentModel {
                    pipe_index: pipes.len() - 1,
                    from: p.from,
                    to: p.to,
                    role: equipment_role(p.kind),
                },
            )
        } else {
            rest
        }
    }
}

/// Identifiers of the active meshed connections, in connection order.
pub open spec fn mesh_ids(pipes: Seq<PipeModel>) -> Seq<Seq<char>>
    decreases pipes.len(),
{
    if pipes.len() == 0 {
        Seq::empty()
    } else {
        let rest = mesh_ids(pipes.drop_last());
        if hydraulically_active(pipes.last()) && is_mesh_link(pipes.last()) {
            rest.push(pipes.last().id)
        } else {
            rest
        }
    }
}

/// Number of active connections.
pub open spec fn active_count(pipes: Seq<PipeModel>) -> nat
    decreases pipes.len(),
{
    if pipes.len() == 0 {
        0
    } else {
        active_count(pipes.drop_last()) + if hydraulically_active(pipes.last()) {
            1nat
        } else {
            0nat
        }
    }
}

/// Both directions of every active connection.
pub open spec fn link_edges(pipes: Seq<PipeModel>) -> Seq<(Seq<char>, Seq<char>)>
    decreases pipes.len(),
{
    if pipes.len() == 0 {
        Seq::empty()
    } else {
        let rest = link_edges(pipes.drop_last());
        let p = pipes.last();
        if hydraulically_active(p) {
            rest.push((p.from, p.to)).push((p.to, p.from))
        } else {
            rest
        }
    }
}

/// `x` is an end of some active connection.
pub open spec fn is_endpoint(pipes: Seq<PipeModel>, x: Seq<char>) -> bool {
    exists|i: int|
        0 <= i < pipes.len() && hydraulically_active(pipes[i]) && (pipes[i].from == x
            || pipes[i].to == x)
}

/// Every end of an active connection reaches every other one.
pub open spec fn links_connected(pipes: Seq<PipeModel>) -> bool {
    forall|a: Seq<char>, b: Seq<char>|
        is_endpoint(pipes, a) && is_endpoint(pipes, b) ==> reachable(link_edges(pipes), a, b)
}

/// Some pressure-fixed node is an end of an active connection.
pub open spec fn has_fixed_anchor(net: NetworkModel) -> bool {
    exists|i: int|
        0 <= i < net.nodes.len() && net.nodes[i].has_fixed_pressure && is_endpoint(
            net.pipes,
            net.nodes[i].id,
        )
}

/// Number of distinct ends of active connections.
pub open spec fn endpoint_count(pipes: Seq<PipeModel>) -> nat {
    Set::new(|x: Seq<char>| is_endpoint(pipes, x)).len()
}

/// Reason a network cannot be simulated by the PDE scheme.
#[derive(Clone, Copy, Debug, PartialEq, Eq, Structural)]
pub enum PdeTopologyError {
    NoActivePipe,
    NoMeshablePipe,
    Disconnected,
    NoFixedPressureAnchor,
}

/// The PDE view of a network: meshed connections (sorted by identifier), whether
/// the active connections form a tree, and the algebraic equipment links.
pub struct PdeTopology {
    pub pipe_ids: Vec<String>,
    pub is_tree: bool,
    pub equipment: Vec<EquipmentLink>,
}

proof fn lemma_link_edges_symmetric(pipes: Seq<PipeModel>)
    ensures
        symmetric_edges(link_edges(pipes)),
    decreases pipes.len(),
{
    if pipes.len() > 0 {
        let pre = pipes.drop_last();
        lemma_link_edges_symmetric(pre);
        let e = link_edges(pipes);
        let ep = link_edges(pre);
        assert forall|x: Seq<char>, y: Seq<char>| has_edge(e, x, y) implies has_edge(e, y, x) by {
            let i = choose|i: int| 0 <= i < e.len() && e[i].0 == x && e[i].1 == y;
            if i < ep.len() {
                assert(e[i] == ep[i]);
                assert(has_edge(ep, x, y));
                let j = choose|j: int| 0 <= j < ep.len() && ep[j].0 == y && ep[j].1 == x;
                assert(e[j] == ep[j]);
            } else if i == ep.len() {
                assert(e[i + 1].0 == y && e[i + 1].1 == x);
            } else {
                assert(e[i - 1].0 == y && e[i - 1].1 == x);
            }
        }
    }
}

proof fn lemma_link_edge_endpoints(pipes: Seq<PipeModel>, x: Seq<char>, y: Seq<char>)
    requires
        has_edge(link_edges(pipes), x, y),
    ensures
        is_endpoint(pipes, x),
        is_endpoint(pipes, y),
    decreases pipes.len(),
{
    let pre = pipes.drop_last();
    let e = link_edges(pipes);
    let ep = link_edges(pre);
    let i = choose|i: int| 0 <= i < e.len() && e[i].0 == x && e[i].1 == y;
    if i < ep.len() {
        assert(e[i] == ep[i]);
        lemma_link_edge_endpoints(pre, x, y);
        let a = choose|a: int|
            0 <= a < pre.len() && hydraulically_active(pre[a]) && (pre[a].from == x || pre[a].to
                == x);
        assert(pipes[a] == pre[a]);
        let b = choose|b: int|
            0 <= b < pre.len() && hydraulically_active(pre[b]) && (pre[b].from == y || pre[b].to
                == y);
        assert(pipes[b] == pre[b]);
    } else {
        assert(hydraulically_active(pipes[pipes.len() - 1]));
    }
}

proof fn lemma_reachable_endpoint(pipes: Seq<PipeModel>, a: Seq<char>, b: Seq<char>, k: nat)
    requires
        is_endpoint(pipes, a),
        crate::reach::reach_within(link_edges(pipes), a, b, k),
    ensures
        is_endpoint(pipes, b),
    decreases k,
{
    if k > 0 {
        if crate::reach::reach_within(link_edges(pipes), a, b, (k - 1) as nat) {
            lemma_reachable_endpoint(pipes, a, b, (k - 1) as nat);
        } else {
            let m = choose|m: Seq<char>|
                #![trigger has_edge(link_edges(pipes), m, b)]
                crate::reach::reach_within(link_edges(pipes), a, m, (k - 1) as nat) && has_edge(
                    link_edges(pipes),
                    m,
                    b,
                );
            lemma_link_edge_endpoints(pipes, m, b);
        }
    }
}

/// Analyses the network for the PDE scheme.
///
/// It is refused when no connection is active, when no active connection is
/// meshed, when the active connections do not connect all their ends, or when
/// no pressure-fixed node lies on them, checked in that order.
pub fn pde_topology(network: &GasNetwork) -> (r: Result<PdeTopology, PdeTopologyError>)
    ensures
        (r == Err::<PdeTopology, PdeTopologyError>(PdeTopologyError::NoActivePipe)) <==> active_count(
            network@.pipes,
        ) == 0,
        (r == Err::<PdeTopology, PdeTopologyError>(PdeTopologyError::NoMeshablePipe)) <==> (
        active_count(network@.pipes) > 0 && mesh_ids(network@.pipes).len() == 0),
        (r == Err::<PdeTopology, PdeTopologyError>(PdeTopologyError::Disconnected)) <==> (
        active_count(network@.pipes) > 0 && mesh_ids(network@.pipes).len() > 0 && !links_connected(
            network@.pipes,
        )),
        (r == Err::<PdeTopology, PdeTopologyError>(PdeTopologyError::NoFixedPressureAnchor)) <==> (
        active_count(network@.pipes) > 0 && mesh_ids(network@.pipes).len() > 0 && links_connected(
            network@.pipes,
        ) && !has_fixed_anchor(network@)),
        match r {
            Ok(t) => {
                &&& string_views(t.pipe_ids@).to_multiset() == mesh_ids(network@.pipes).to_multiset()
                &&& sorted_strs(string_views(t.pipe_ids@))
                &&& t.is_tree == (active_count(network@.pipes) + 1 == endpoint_count(network@.pipes))
                &&& equipment_models(t.equipment@) == equipment_links(network@.pipes)
                &&& forall|k: int|
                    0 <= k < network@.pipes.len() && hydraulically_active(#[trigger] network@.pipes[k]) && (
                    network@.pipes[k].kind == ConnectionKind::Pipe || network@.pipes[k].kind
                        == ConnectionKind::Resistor || network@.pipes[k].kind == ConnectionKind::Valve
                        || network@.pipes[k].kind == ConnectionKind::ShortPipe || network@.pipes[k].kind
                        == ConnectionKind::ControlValve) ==> string_views(t.pipe_ids@).contains(
                        network@.pipes[k].id,
                    )
                &&& forall|j: int|
                    0 <= j < t.equipment@.len() ==> {
                        let e = #[trigger] t.equipment@[j];
                        &&& e.pipe_index < network@.pipes.len()
                        &&& hydraulically_active(network@.pipes[e.pipe_index as int])
                        &&& e.from@ == network@.pipes[e.pipe_index as int].from
                        &&& e.to@ == network@.pipes[e.pipe_index as int].to
                        &&& e.role == EquipmentRole::Regulator ==> (network@.pipes[e.pipe_index as int].kind
                            == ConnectionKind::PressureRegulator || network@.pipes[e.pipe_index as int].kind
                            == ConnectionKind::DeliveryStation)
                        &&& e.role == EquipmentRole::Compressor ==> network@.pipes[e.pipe_index as int].kind
                            == ConnectionKind::CompressorStation
                    }
            },
            Err(_) => true,
        },
{
    let ghost pipes = network@.pipes;
    let mut ids: Vec<String> = Vec::new();
    let mut equipment: Vec<EquipmentLink> = Vec::new();
    let mut edges: Vec<(String, String)> = Vec::new();
    let mut ends: Vec<String> = Vec::new();
    let mut n_active: usize = 0;
    let mut i: usize = 0;
    while i < network.pipes.len()
        invariant
            pipes == network@.pipes,
            0 <= i <= pipes.len(),
            n_active == active_count(pipes.take(i as int)),
            n_active <= i,
            string_views(ids@) == mesh_ids(pipes.take(i as int)),
            equipment_models(equipment@) == equipment_links(pipes.take(i as int)),
            edge_views(edges@) == link_edges(pipes.take(i as int)),
            string_views(ends@).no_duplicates(),
            forall|t: Seq<char>|
                string_views(ends@).contains(t) <==> is_endpoint(pipes.take(i as int), t),
        decreases pipes.len() - i,
    {
        let ghost pre = pipes.take(i as int);
        let ghost cur = pipes.take(i + 1);
        proof {
            assert(cur.drop_last() =~= pre);
        }
        let p = &network.pipes[i];
        if p.hydraulically_active() {
            n_active = n_active + 1;
            let mesh = matches!(p.kind, ConnectionKind::Pipe) || matches!(
                p.kind,
                ConnectionKind::Resistor,
            ) || matches!(p.kind, ConnectionKind::Valve) || matches!(
                p.kind,
                ConnectionKind::ShortPipe,
            ) || matches!(p.kind, ConnectionKind::ControlValve);
            if mesh {
                let ghost prev = string_views(ids@);
                ids.push(p.id.clone());
                proof {
                    assert(string_views(ids@) =~= prev.push(pipes[i as int].id));
                }
            } else {
                let role = if matches!(p.kind, ConnectionKind::CompressorStation) {
                    EquipmentRole::Compressor
                } else {
                    EquipmentRole::Regulator
                };
                let ghost prev = equipment_models(equipment@);
                equipment.push(
                    EquipmentLink { pipe_index: i, from: p.from.clone(), to: p.to.clone(), role },
                );
                proof {
                    assert(equipment_models(equipment@) =~= prev.push(
                        EquipmentModel {
                            pipe_index: i as int,
                            from: pipes[i as int].from,
                            to: pipes[i as int].to,
                            role: equipment_role(pipes[i as int].kind),
                        },
                    ));
                }
            }
            let ghost prev_edges = edge_views(edges@);
            edges.push((p.from.clone(), p.to.clone()));
            edges.push((p.to.clone(), p.from.clone()));
            proof {
                assert(edge_views(edges@) =~= prev_edges.push(
                    (pipes[i as int].from, pipes[i as int].to),
                ).push((pipes[i as int].to, pipes[i as int].from)));
            }
            let ghost prev_ends = string_views(ends@);
            if !contains_string(&ends, &p.from) {
                ends.push(p.from.clone());
                proof {
                    assert(string_views(ends@) =~= prev_ends.push(pipes[i as int].from));
                }
            }
            let ghost mid_ends = string_views(ends@);
            if !contains_string(&ends, &p.to) {
                ends.push(p.to.clone());
                proof {
                    assert(string_views(ends@) =~= mid_ends.push(pipes[i as int].to));
                }
            }
            proof {
                assert forall|t: Seq<char>|
                    string_views(ends@).contains(t) <==> is_endpoint(cur, t) by {
                    if string_views(ends@).contains(t) {
                        if prev_ends.contains(t) {
                            let a = choose|a: int|
                                0 <= a < pre.len() && hydraulically_active(pre[a]) && (pre[a].from
                                    == t || pre[a].to == t);
                            assert(cur[a] == pre[a]);
                        } else {
                            assert(t == pipes[i as int].from || t == pipes[i as int].to);
                            assert(cur[i as int] == pipes[i as int]);
                        }
                    }
                    if is_endpoint(cur, t) {
                        let a = choose|a: int|
                            0 <= a < cur.len() && hydraulically_active(cur[a]) && (cur[a].from == t
                                || cur[a].to == t);
                        if a < i {
                            assert(pre[a] == cur[a]);
                            assert(prev_ends.contains(t));
                            let q = choose|q: int| 0 <= q < prev_ends.len() && prev_ends[q] == t;
                            assert(string_views(ends@)[q] == t);
                        } else {
                            if t == pipes[i as int].from {
                                if !prev_ends.contains(t) {
                                    assert(mid_ends[prev_ends.len() as int] == t);
                                } else {
                                    let q = choose|q: int| 0 <= q < prev_ends.len() && prev_ends[q] == t;
                                    assert(mid_ends[q] == t);
                                }
                                let q = choose|q: int| 0 <= q < mid_ends.len() && mid_ends[q] == t;
                                assert(string_views(ends@)[q] == t);
                            } else {
                                if !mid_ends.contains(t) {
                                    assert(string_views(ends@)[mid_ends.len() as int] == t);
                                } else {
                                    let q = choose|q: int| 0 <= q < mid_ends.len() && mid_ends[q] == t;
                                    assert(string_views(ends@)[q] == t);
                                }
                            }
                        }
                    }
                }
            }
        } else {
            proof {
                assert forall|t: Seq<char>|
                    string_views(ends@).contains(t) <==> is_endpoint(cur, t) by {
                    if is_endpoint(cur, t) {
                        let a = choose|a: int|
                            0 <= a < cur.len() && hydraulically_active(cur[a]) && (cur[a].from == t
                                || cur[a].to == t);
                        assert(a != i);
                        assert(pre[a] == cur[a]);
                    }
                    if is_endpoint(pre, t) {
                        let a = choose|a: int|
                            0 <= a < pre.len() && hydraulically_active(pre[a]) && (pre[a].from == t
                                || pre[a].to == t);
                        assert(cur[a] == pre[a]);
                    }
                }
            }
        }
        i = i + 1;
    }
    proof {
        assert(pipes.take(pipes.len() as int) =~= pipes);
        assert forall|t: Seq<char>| string_views(ends@).contains(t) <==> is_endpoint(pipes, t) by {
            assert(pipes.take(i as int) =~= pipes);
        }
    }
    if n_active == 0 {
        return Err(PdeTopologyError::NoActivePipe);
    }
    if ids.len() == 0 {
        return Err(PdeTopologyError::NoMeshablePipe);
    }
    proof {
        lemma_active_witness(pipes);
        let a = choose|a: int| 0 <= a < pipes.len() && hydraulically_active(pipes[a]);
        assert(is_endpoint(pipes, pipes[a].from));
        assert(string_views(ends@).contains(pipes[a].from));
    }
    let ghost ev = link_edges(pipes);
    let ghost start = ends@[0]@;
    proof {
        assert(string_views(ends@)[0] == start);
        assert(string_views(ends@).contains(start));
        assert(is_endpoint(pipes, start));
        lemma_link_edges_symmetric(pipes);
    }
    let (reached, exhausted) = bfs_within(&edges, &ends[0], ends.len());
    proof {
        if !exhausted {
            let rv = string_views(reached@);
            let en = string_views(ends@);
            assert forall|q: int| 0 <= q < rv.len() implies en.contains(#[trigger] rv[q]) by {
                assert(rv.contains(rv[q]));
                lemma_reachable_endpoint(pipes, start, rv[q], ends@.len() as nat);
            }
            crate::reach::lemma_distinct_members_bound(rv, en);
        }
    }
    let mut all = true;
    let mut j: usize = 0;
    while j < ends.len()
        invariant
            0 <= j <= ends@.len(),
            forall|t: Seq<char>| string_views(ends@).contains(t) <==> is_endpoint(pipes, t),
            ev == edge_views(edges@),
            forall|t: Seq<char>|
                string_views(reached@).contains(t) <==> reachable(ev, start, t),
            all <==> forall|q: int| 0 <= q < j ==> reachable(ev, start, #[trigger] ends@[q]@),
        decreases ends@.len() - j,
    {
        if !contains_string(&reached, &ends[j]) {
            all = false;
        }
        j = j + 1;
    }
    proof {
        assert(links_connected(pipes) <==> all) by {
            if all {
                assert forall|a: Seq<char>, b: Seq<char>|
                    is_endpoint(pipes, a) && is_endpoint(pipes, b) implies reachable(ev, a, b) by {
                    assert(string_views(ends@).contains(a));
                    assert(string_views(ends@).contains(b));
                    let qa = choose|q: int| 0 <= q < string_views(ends@).len() && string_views(ends@)[q] == a;
                    let qb = choose|q: int| 0 <= q < string_views(ends@).len() && string_views(ends@)[q] == b;
                    assert(ends@[qa]@ == a);
                    assert(ends@[qb]@ == b);
                    assert(reachable(ev, start, ends@[qa]@));
                    assert(reachable(ev, start, ends@[qb]@));
                    lemma_reachable_symmetric(ev, start, a);
                    lemma_reachable_transitive(ev, a, start, b);
                }
            } else {
                let q = choose|q: int| 0 <= q < ends@.len() && !reachable(ev, start, #[trigger] ends@[q]@);
                assert(string_views(ends@)[q] == ends@[q]@);
                assert(string_views(ends@).contains(ends@[q]@));
                assert(is_endpoint(pipes, ends@[q]@));
            }
        }
    }
    if !all {
        return Err(PdeTopologyError::Disconnected);
    }
    let is_tree = n_active == ends.len() - 1;
    proof {
        let en = string_views(ends@);
        assert(Set::new(|x: Seq<char>| is_endpoint(pipes, x)) =~= en.to_set());
        en.unique_seq_to_set();
    }
    let mut anchored = false;
    let mut k: usize = 0;
    while k < network.nodes.len()
        invariant
            0 <= k <= network@.nodes.len(),
            pipes == network@.pipes,
            forall|t: Seq<char>| string_views(ends@).contains(t) <==> is_endpoint(pipes, t),
            anchored <==> exists|q: int|
                0 <= q < k && network@.nodes[q].has_fixed_pressure && is_endpoint(
                    pipes,
                    #[trigger] network@.nodes[q].id,
                ),
        decreases network@.nodes.len() - k,
    {
        let hit = network.nodes[k].has_fixed_pressure && contains_string(&ends, &network.nodes[k].id);
        proof {
            if network@.nodes[k as int].has_fixed_pressure {
                assert(string_views(ends@).contains(network@.nodes[k as int].id) <==> is_endpoint(
                    pipes,
                    network@.nodes[k as int].id,
                ));
            }
        }
        if hit {
            anchored = true;
        }
        k = k + 1;
    }
    if !anchored {
        return Err(PdeTopologyError::NoFixedPressureAnchor);
    }
    let ghost id_views = string_views(ids@);
    let pipe_ids = sort_strings(ids);
    proof {
        let pv = string_views(pipe_ids@);
        assert(pv == pipe_ids@.map_values(|s: String| s@));
        assert(id_views == mesh_ids(pipes));
        pv.to_multiset_ensures();
        id_views.to_multiset_ensures();
        assert forall|k: int|
            0 <= k < pipes.len() && hydraulically_active(#[trigger] pipes[k]) && (pipes[k].kind
                == ConnectionKind::Pipe || pipes[k].kind == ConnectionKind::Resistor || pipes[k].kind
                == ConnectionKind::Valve || pipes[k].kind == ConnectionKind::ShortPipe || pipes[k].kind
                == ConnectionKind::ControlValve) implies pv.contains(pipes[k].id) by {
            lemma_mesh_covers_flow_connections(pipes, k);
            assert(id_views.to_multiset().count(pipes[k].id) > 0);
        }
        assert forall|j: int| 0 <= j < equipment@.len() implies {
            let e = #[trigger] equipment@[j];
            &&& e.pipe_index < pipes.len()
            &&& hydraulically_active(pipes[e.pipe_index as int])
            &&& e.from@ == pipes[e.pipe_index as int].from
            &&& e.to@ == pipes[e.pipe_index as int].to
            &&& e.role == EquipmentRole::Regulator ==> (pipes[e.pipe_index as int].kind
                == ConnectionKind::PressureRegulator || pipes[e.pipe_index as int].kind
                == ConnectionKind::DeliveryStation)
            &&& e.role == EquipmentRole::Compressor ==> pipes[e.pipe_index as int].kind
                == ConnectionKind::CompressorStation
        } by {
            assert(equipment_models(equipment@)[j] == equipment@[j]@);
            lemma_equipment_links_are_regulators_and_compressors(pipes, j);
        }
    }
    Ok(PdeTopology { pipe_ids, is_tree, equipment })
}

/// Every active pipe, resistor, valve, short pipe or control valve is meshed.
pub proof fn lemma_mesh_covers_flow_connections(pipes: Seq<PipeModel>, k: int)
    requires
        0 <= k < pipes.len(),
        hydraulically_active(pipes[k]),
        pipes[k].kind == ConnectionKind::Pipe || pipes[k].kind == ConnectionKind::Resistor
            || pipes[k].kind == ConnectionKind::Valve || pipes[k].kind == ConnectionKind::ShortPipe
            || pipes[k].kind == ConnectionKind::ControlValve,
    ensures
        mesh_ids(pipes).contains(pipes[k].id),
    decreases pipes.len(),
{
    let last = pipes.len() - 1;
    let rest = mesh_ids(pipes.drop_last());
    if k < last {
        assert(pipes.drop_last()[k] == pipes[k]);
        lemma_mesh_covers_flow_connections(pipes.drop_last(), k);
        let w = choose|w: int| 0 <= w < rest.len() && rest[w] == pipes[k].id;
        assert(mesh_ids(pipes)[w] == pipes[k].id);
    } else {
        assert(mesh_ids(pipes) == rest.push(pipes[k].id));
        assert(mesh_ids(pipes)[rest.len() as int] == pipes[k].id);
    }
}

/// Every equipment link stands for an active connection that is not meshed,
/// with its ends: a regulator link for a pressure regulator or delivery
/// station, a compressor link for a compressor station.
pub proof fn lemma_equipment_links_are_regulators_and_compressors(pipes: Seq<PipeModel>, j: int)
    requires
        0 <= j < equipment_links(pipes).len(),
    ensures
        ({
            let e = equipment_links(pipes)[j];
            &&& 0 <= e.pipe_index < pipes.len()
            &&& hydraulically_active(pipes[e.pipe_index])
            &&& e.from == pipes[e.pipe_index].from
            &&& e.to == pipes[e.pipe_index].to
            &&& e.role == EquipmentRole::Regulator ==> (pipes[e.pipe_index].kind
                == ConnectionKind::PressureRegulator || pipes[e.pipe_index].kind
                == ConnectionKind::DeliveryStation)
            &&& e.role == EquipmentRole::Compressor ==> pipes[e.pipe_index].kind
                == ConnectionKind::CompressorStation
        }),
    decreases pipes.len(),
{
    let rest = equipment_links(pipes.drop_last());
    if j < rest.len() {
        lemma_equipment_links_are_regulators_and_compressors(pipes.drop_last(), j);
        assert(equipment_links(pipes)[j] == rest[j]);
        let e = rest[j];
        assert(pipes.drop_last()[e.pipe_index] == pipes[e.pipe_index]);
    }
}

proof fn lemma_active_witness(pipes: Seq<PipeModel>)
    requires
        active_count(pipes) > 0,
    ensures
        exists|a: int| 0 <= a < pipes.len() && hydraulically_active(pipes[a]),
    decreases pipes.len(),
{
    let pre = pipes.drop_last();
    if active_count(pre) > 0 {
        lemma_active_witness(pre);
        let a = choose|a: int| 0 <= a < pre.len() && hydraulically_active(pre[a]);
        assert(pipes[a] == pre[a]);
    } else {
        assert(hydraulically_active(pipes[pipes.len() - 1]));
    }
}

/// Whether the PDE scheme can simulate the network.
pub fn is_pde_eligible(network: &GasNetwork) -> (r: bool)
    ensures
        r == (active_count(network@.pipes) > 0 && mesh_ids(network@.pipes).len() > 0
            && links_connected(network@.pipes) && has_fixed_anchor(network@)),
{
    let r = pde_topology(network);
    match r {
        Ok(_) => true,
        Err(e) => {
            proof {
                match e {
                    PdeTopologyError::NoActivePipe => {},
                    PdeTopologyError::NoMeshablePipe => {},
                    PdeTopologyError::Disconnected => {},
                    PdeTopologyError::NoFixedPressureAnchor => {},
                }
            }
            false
        },
    }
}

/// Some equipment link has outlet `t`.
pub open spec fn is_equipment_outlet(equipment: Seq<EquipmentLink>, t: Seq<char>) -> bool {
    exists|i: int| 0 <= i < equipment.len() && #[trigger] equipment[i].to@ == t
}

/// The pressure-anchored nodes once the algebraic equipment imposes its outlet
/// pressures: the nodes of `fixed` and every equipment outlet, each listed once.
pub fn equipment_fixed_nodes(fixed: &Vec<String>, equipment: &Vec<EquipmentLink>) -> (r: Vec<String>)
    ensures
        string_views(r@).no_duplicates(),
        forall|t: Seq<char>|
            string_views(r@).contains(t) <==> (string_views(fixed@).contains(t)
                || is_equipment_outlet(equipment@, t)),
{
    let mut out: Vec<String> = Vec::new();
    let mut i: usize = 0;
    while i < fixed.len()
        invariant
            0 <= i <= fixed@.len(),
            string_views(out@).no_duplicates(),
            forall|t: Seq<char>|
                string_views(out@).contains(t) <==> exists|j: int| 0 <= j < i && #[trigger] fixed@[j]@ == t,
        decreases fixed@.len() - i,
    {
        push_unique(&mut out, &fixed[i]);
        proof {
            assert forall|t: Seq<char>|
                string_views(out@).contains(t) implies exists|j: int| 0 <= j < i + 1 && #[trigger] fixed@[j]@ == t by {
                if t == fixed@[i as int]@ {
                    assert(0 <= i < i + 1);
                }
            }
        }
        i = i + 1;
    }
    proof {
        assert forall|t: Seq<char>|
            string_views(out@).contains(t) <==> string_views(fixed@).contains(t) by {
            if string_views(out@).contains(t) {
                let j = choose|j: int| 0 <= j < fixed@.len() && #[trigger] fixed@[j]@ == t;
                assert(string_views(fixed@)[j] == t);
            }
            if string_views(fixed@).contains(t) {
                let j = choose|j: int| 0 <= j < fixed@.len() && string_views(fixed@)[j] == t;
                assert(fixed@[j]@ == t);
            }
        }
    }
    let mut k: usize = 0;
    while k < equipment.len()
        invariant
            0 <= k <= equipment@.len(),
            string_views(out@).no_duplicates(),
            forall|t: Seq<char>|
                string_views(out@).contains(t) <==> (string_views(fixed@).contains(t) || exists|j: int|
                    0 <= j < k && #[trigger] equipment@[j].to@ == t),
        decreases equipment@.len() - k,
    {
        push_unique(&mut out, &equipment[k].to);
        proof {
            assert forall|t: Seq<char>|
                string_views(out@).contains(t) implies (string_views(fixed@).contains(t) || exists|j: int|
                    0 <= j < k + 1 && #[trigger] equipment@[j].to@ == t) by {
                if t == equipment@[k as int].to@ {
                    assert(0 <= k < k + 1);
                }
            }
        }
        k = k + 1;
    }
    out
}

/// Position of the first of the first `n` identifiers equal to `id`.
pub open spec fn first_index_upto(ids: Seq<Seq<char>>, id: Seq<char>, n: nat) -> Option<int>
    decreases n,
{
    if n == 0 {
        None
    } else {
        match first_index_upto(ids, id, (n - 1) as nat) {
            Some(j) => Some(j),
            None => if ids[n - 1] == id {
                Some(n - 1)
            } else {
                None
            },
        }
    }
}

/// The supplied spatial state a pipe of `cells` cells takes: the state given
/// for its identifier, when it holds `cells` pressures and `cells + 1` flows.
pub open spec fn spatial_state_for(
    supplied_ids: Seq<Seq<char>>,
    supplied_lens: Seq<(usize, usize)>,
    id: Seq<char>,
    cells: usize,
) -> Option<usize> {
    match first_index_upto(supplied_ids, id, supplied_ids.len()) {
        Some(j) => if supplied_lens[j].0 == cells && supplied_lens[j].1 == cells + 1 {
            Some(j as usize)
        } else {
            None
        },
        None => None,
    }
}

/// For each meshed pipe (identifier and cell count), the supplied spatial
/// initial state it takes over, by position: `supplied_lens[j]` gives the
/// numbers of pressures and flows of state `j`. A pipe keeps its own state when
/// none is supplied for it or the supplied one does not fit its mesh.
pub fn spatial_initial_states(
    pipe_ids: &Vec<String>,
    pipe_cells: &Vec<usize>,
    supplied_ids: &Vec<String>,
    supplied_lens: &Vec<(usize, usize)>,
) -> (r: Vec<Option<usize>>)
    requires
        pipe_cells@.len() == pipe_ids@.len(),
        supplied_lens@.len() == supplied_ids@.len(),
    ensures
        r@.len() == pipe_ids@.len(),
        forall|k: int|
            0 <= k < r@.len() ==> #[trigger] r@[k] == spatial_state_for(
                string_views(supplied_ids@),
                supplied_lens@,
                pipe_ids@[k]@,
                pipe_cells@[k],
            ),
{
    let mut out: Vec<Option<usize>> = Vec::new();
    let mut k: usize = 0;
    while k < pipe_ids.len()
        invariant
            0 <= k <= pipe_ids@.len(),
            pipe_cells@.len() == pipe_ids@.len(),
            supplied_lens@.len() == supplied_ids@.len(),
            out@.len() == k,
            forall|q: int|
                0 <= q < k ==> #[trigger] out@[q] == spatial_state_for(
                    string_views(supplied_ids@),
                    supplied_lens@,
                    pipe_ids@[q]@,
                    pipe_cells@[q],
                ),
        decreases pipe_ids@.len() - k,
    {
        let ghost sv = string_views(supplied_ids@);
        let mut j: usize = 0;
        let mut found: Option<usize> = None;
        while j < supplied_ids.len() && found.is_none()
            invariant
                0 <= j <= supplied_ids@.len(),
                0 <= k < pipe_ids@.len(),
                sv == string_views(supplied_ids@),
                match found {
                    Some(f) => first_index_upto(sv, pipe_ids@[k as int]@, j as nat) == Some(f as int),
                    None => first_index_upto(sv, pipe_ids@[k as int]@, j as nat) is None,
                },
            decreases supplied_ids@.len() - j,
        {
            if supplied_ids[j] == pipe_ids[k] {
                found = Some(j);
            }
            proof {
                assert(sv[j as int] == supplied_ids@[j as int]@);
            }
            j = j + 1;
        }
        proof {
            if found.is_some() {
                lemma_first_index_stays(sv, pipe_ids@[k as int]@, j as nat, sv.len());
                lemma_first_index_in_range(sv, pipe_ids@[k as int]@, sv.len());
            }
        }
        let choice = match found {
            Some(f) => {
                let (np, nf) = supplied_lens[f];
                if np == pipe_cells[k] && nf >= 1 && nf - 1 == pipe_cells[k] {
                    Some(f)
                } else {
                    None
                }
            },
            None => None,
        };
        out.push(choice);
        proof {
            assert(out@[k as int] == choice);
        }
        k = k + 1;
    }
    out
}

proof fn lemma_first_index_in_range(ids: Seq<Seq<char>>, id: Seq<char>, n: nat)
    requires
        n <= ids.len(),
    ensures
        match first_index_upto(ids, id, n) {
            Some(j) => 0 <= j < n && ids[j] == id,
            None => true,
        },
    decreases n,
{
    if n > 0 {
        lemma_first_index_in_range(ids, id, (n - 1) as nat);
    }
}

proof fn lemma_first_index_stays(ids: Seq<Seq<char>>, id: Seq<char>, n: nat, m: nat)
    requires
        n <= m,
        first_index_upto(ids, id, n) is Some,
    ensures
        first_index_upto(ids, id, m) == first_index_upto(ids, id, n),
    decreases m,
{
    if n < m {
        lemma_first_index_stays(ids, id, n, (m - 1) as nat);
    }
}

} // verus!
