//! N-1 contingency planning: which single outages to study, how one outage
//! changes the network, which nodes are monitored, and the red/green verdict
//! of a study.

use vstd::prelude::*;
use crate::network::{
    ConnectionKind, GasNetwork, NetworkModel, Node, NodeModel, Pipe, PipeModel, distinct_node_ids, distinct_pipe_ids,
    has_node_id, has_pipe_id, is_first_node_with_id, is_first_pipe_with_id, lemma_first_node_exists,
    lemma_first_node_unique, lemma_first_pipe_exists, node_models, pipe_models,
    string_views, contains_string,
};

verus! {

/// Action that a contingency applies to the network.
#[derive(Clone, Copy, Debug, PartialEq, Eq, Structural)]
pub enum ContingencyAction {
    RemovePipe,
    CloseValve,
    ClosePipe,
    DisableSource,
}

/// Kind of element put out of service.
#[derive(Clone, Copy, Debug, PartialEq, Eq, Structural)]
pub enum ContingencyElementType {
    Compressor,
    Pipe,
    Source,
}

/// One outage: an element, its type and the action taken on it.
pub struct ContingencyCase {
    pub element_id: String,
    pub element_type: ContingencyElementType,
    pub action: ContingencyAction,
}

pub struct CaseModel {
    pub element_id: Seq<char>,
    pub element_type: ContingencyElementType,
    pub action: ContingencyAction,
}

impl View for ContingencyCase {
    type V = CaseModel;

    open spec fn view(&self) -> CaseModel {
        CaseModel {
            element_id: self.element_id@,
            element_type: self.element_type,
            action: self.action,
        }
    }
}

impl Clone for ContingencyCase {
    fn clone(&self) -> (r: Self)
        ensures
            r == *self,
    {
        ContingencyCase {
            element_id: self.element_id.clone(),
            element_type: self.element_type,
            action: self.action,
        }
    }
}

pub open spec fn case_models(cases: Seq<ContingencyCase>) -> Seq<CaseModel> {
    cases.map_values(|c: ContingencyCase| c@)
}

/// Cases for the connections of kind `kind`, in connection order.
pub open spec fn pipe_cases(
    pipes: Seq<PipeModel>,
    kind: ConnectionKind,
    element_type: ContingencyElementType,
    action: ContingencyAction,
) -> Seq<CaseModel>
    decreases pipes.len(),
{
    if pipes.len() == 0 {
        Seq::empty()
    } else {
        let rest = pipe_cases(pipes.drop_last(), kind, element_type, action);
        if pipes.last().kind == kind {
            rest.push(CaseModel { element_id: pipes.last().id, element_type, action })
        } else {
            rest
        }
    }
}

/// Source cases: one per node with an imposed pressure, in node order.
pub open spec fn source_cases(nodes: Seq<NodeModel>) -> Seq<CaseModel>
    decreases nodes.len(),
{
    if nodes.len() == 0 {
        Seq::empty()
    } else {
        let rest = source_cases(nodes.drop_last());
        if nodes.last().has_fixed_pressure {
            rest.push(
                CaseModel {
                    element_id: nodes.last().id,
                    element_type: ContingencyElementType::Source,
                    action: ContingencyAction::DisableSource,
                },
            )
        } else {
            rest
        }
    }
}

/// The N-1 study: every compressor station removed, every valve closed, every
/// pressure-fixed source disabled, in that order.
pub open spec fn n_minus_1_cases(net: NetworkModel) -> Seq<CaseModel> {
    pipe_cases(
        net.pipes,
        ConnectionKind::CompressorStation,
        ContingencyElementType::Compressor,
        ContingencyAction::RemovePipe,
    ) + pipe_cases(
        net.pipes,
        ConnectionKind::Valve,
        ContingencyElementType::Pipe,
        ContingencyAction::CloseValve,
    ) + source_cases(net.nodes)
}

fn push_pipe_cases(
    network: &GasNetwork,
    kind: ConnectionKind,
    element_type: ContingencyElementType,
    action: ContingencyAction,
    cases: &mut Vec<ContingencyCase>,
)
    ensures
        case_models(final(cases)@) == case_models(old(cases)@) + pipe_cases(
            network@.pipes,
            kind,
            element_type,
            action,
        ),
{
    let ghost start = case_models(cases@);
    let mut i: usize = 0;
    while i < network.pipes.len()
        invariant
            0 <= i <= network.pipes.len(),
            case_models(cases@) == start + pipe_cases(
                network@.pipes.take(i as int),
                kind,
                element_type,
                action,
            ),
        decreases network.pipes.len() - i,
    {
        proof {
            assert(network@.pipes.take(i + 1).drop_last() =~= network@.pipes.take(i as int));
        }
        if network.pipes[i].kind == kind {
            let ghost prev = case_models(cases@);
            cases.push(
                ContingencyCase { element_id: network.pipes[i].id.clone(), element_type, action },
            );
            proof {
                assert(case_models(cases@) =~= prev.push(
                    CaseModel { element_id: network@.pipes[i as int].id, element_type, action },
                ));
            }
        }
        i = i + 1;
    }
    proof {
        assert(network@.pipes.take(network.pipes.len() as int) =~= network@.pipes);
    }
}

/// Lists the N-1 cases of a network: compressor stations removed, valves closed,
/// pressure-fixed sources disabled.
pub fn generate_n_minus_1_cases(network: &GasNetwork) -> (r: Vec<ContingencyCase>)
    ensures
        case_models(r@) == n_minus_1_cases(network@),
{
    let mut cases: Vec<ContingencyCase> = Vec::new();
    proof {
        assert(case_models(cases@) =~= Seq::<CaseModel>::empty());
    }
    push_pipe_cases(
        network,
        ConnectionKind::CompressorStation,
        ContingencyElementType::Compressor,
        ContingencyAction::RemovePipe,
        &mut cases,
    );
    push_pipe_cases(
        network,
        ConnectionKind::Valve,
        ContingencyElementType::Pipe,
        ContingencyAction::CloseValve,
        &mut cases,
    );
    let ghost before_sources = case_models(cases@);
    let mut i: usize = 0;
    while i < network.nodes.len()
        invariant
            0 <= i <= network.nodes.len(),
            case_models(cases@) == before_sources + source_cases(network@.nodes.take(i as int)),
        decreases network.nodes.len() - i,
    {
        proof {
            assert(network@.nodes.take(i + 1).drop_last() =~= network@.nodes.take(i as int));
        }
        if network.nodes[i].has_fixed_pressure {
            let ghost prev = case_models(cases@);
            cases.push(
                ContingencyCase {
                    element_id: network.nodes[i].id.clone(),
                    element_type: ContingencyElementType::Source,
                    action: ContingencyAction::DisableSource,
                },
            );
            proof {
                assert(case_models(cases@) =~= prev.push(
                    CaseModel {
                        element_id: network@.nodes[i as int].id,
                        element_type: ContingencyElementType::Source,
                        action: ContingencyAction::DisableSource,
                    },
                ));
            }
        }
        i = i + 1;
    }
    proof {
        assert(network@.nodes.take(network.nodes.len() as int) =~= network@.nodes);
        assert(case_models(cases@) =~= n_minus_1_cases(network@));
    }
    cases
}


/// A connection after closing every connection with identifier `id`.
pub open spec fn close_pipe_if(p: PipeModel, id: Seq<char>) -> PipeModel {
    if p.id == id {
        PipeModel {
            id: p.id,
            from: p.from,
            to: p.to,
            kind: p.kind,
            is_open: false,
            control_valve_shut: p.control_valve_shut,
        }
    } else {
        p
    }
}

/// The network after applying one contingency.
///
/// Removing a connection takes out the first connection with the element's
/// identifier; closing sets every connection with that identifier closed;
/// disabling a source releases the imposed pressure of the first node with that
/// identifier. An identifier that matches nothing leaves the network unchanged.
pub open spec fn apply_contingency_model(net: NetworkModel, case: CaseModel) -> NetworkModel {
    match case.action {
        ContingencyAction::RemovePipe => {
            if has_pipe_id(net.pipes, case.element_id) {
                let i = choose|i: int| is_first_pipe_with_id(net.pipes, case.element_id, i);
                NetworkModel { nodes: net.nodes, pipes: net.pipes.remove(i) }
            } else {
                net
            }
        },
        ContingencyAction::CloseValve | ContingencyAction::ClosePipe => NetworkModel {
            nodes: net.nodes,
            pipes: Seq::new(net.pipes.len(), |k: int| close_pipe_if(net.pipes[k], case.element_id)),
        },
        ContingencyAction::DisableSource => {
            if has_node_id(net.nodes, case.element_id) {
                let i = choose|i: int| is_first_node_with_id(net.nodes, case.element_id, i);
                NetworkModel {
                    nodes: net.nodes.update(
                        i,
                        NodeModel { id: net.nodes[i].id, has_fixed_pressure: false },
                    ),
                    pipes: net.pipes,
                }
            } else {
                net
            }
        },
    }
}

proof fn lemma_first_pipe_unique(pipes: Seq<PipeModel>, id: Seq<char>, i: int, j: int)
    requires
        is_first_pipe_with_id(pipes, id, i),
        is_first_pipe_with_id(pipes, id, j),
    ensures
        i == j,
{
}

/// Applies one contingency to a copy of the network.
pub fn apply_contingency(network: &GasNetwork, case: &ContingencyCase) -> (r: GasNetwork)
    ensures
        r@ == apply_contingency_model(network@, case@),
{
    match case.action {
        ContingencyAction::RemovePipe => {
            let mut modified = network.clone();
            match network.pipe_position(&case.element_id) {
                Some(i) => {
                    let ghost before = modified.pipes@;
                    modified.pipes.remove(i);
                    proof {
                        let j = choose|j: int|
                            is_first_pipe_with_id(network@.pipes, case@.element_id, j);
                        lemma_first_pipe_unique(network@.pipes, case@.element_id, i as int, j);
                        assert(pipe_models(modified.pipes@) =~= network@.pipes.remove(i as int));
                    }
                },
                None => {},
            }
            modified
        },
        ContingencyAction::CloseValve | ContingencyAction::ClosePipe => {
            let nodes = network.nodes.clone();
            let mut pipes: Vec<Pipe> = Vec::new();
            let mut k: usize = 0;
            while k < network.pipes.len()
                invariant
                    0 <= k <= network.pipes.len(),
                    pipes@.len() == k,
                    forall|m: int|
                        0 <= m < k ==> #[trigger] pipes@[m]@ == close_pipe_if(
                            network@.pipes[m],
                            case@.element_id,
                        ),
                decreases network.pipes.len() - k,
            {
                let mut p = network.pipes[k].clone();
                if p.id == case.element_id {
                    p.is_open = false;
                }
                pipes.push(p);
                k = k + 1;
            }
            let r = GasNetwork { nodes, pipes };
            proof {
                assert(node_models(r.nodes@) =~= network@.nodes);
                assert(pipe_models(r.pipes@) =~= Seq::new(
                    network@.pipes.len(),
                    |m: int| close_pipe_if(network@.pipes[m], case@.element_id),
                ));
            }
            r
        },
        ContingencyAction::DisableSource => {
            let mut modified = network.clone();
            match network.node_position(&case.element_id) {
                Some(i) => {
                    let id = network.nodes[i].id.clone();
                    modified.nodes.set(i, Node { id, has_fixed_pressure: false });
                    proof {
                        let j = choose|j: int|
                            is_first_node_with_id(network@.nodes, case@.element_id, j);
                        lemma_first_node_unique(network@.nodes, case@.element_id, i as int, j);
                        assert(node_models(modified.nodes@) =~= network@.nodes.update(
                            i as int,
                            NodeModel { id: network@.nodes[i as int].id, has_fixed_pressure: false },
                        ));
                    }
                },
                None => {},
            }
            modified
        },
    }
}

/// Applying the same contingency twice changes the network no more than applying
/// it once, when no two connections share an identifier.
pub proof fn lemma_apply_contingency_idempotent(net: NetworkModel, case: CaseModel)
    requires
        distinct_pipe_ids(net.pipes),
    ensures
        apply_contingency_model(apply_contingency_model(net, case), case)
            == apply_contingency_model(net, case),
{
    let once = apply_contingency_model(net, case);
    match case.action {
        ContingencyAction::RemovePipe => {
            if has_pipe_id(net.pipes, case.element_id) {
                lemma_first_pipe_exists(net.pipes, case.element_id);
                let i = choose|i: int| is_first_pipe_with_id(net.pipes, case.element_id, i);
                if has_pipe_id(once.pipes, case.element_id) {
                    let k = choose|k: int|
                        0 <= k < once.pipes.len() && once.pipes[k].id == case.element_id;
                    if k < i {
                        assert(once.pipes[k] == net.pipes[k]);
                    } else {
                        assert(once.pipes[k] == net.pipes[k + 1]);
                    }
                }
            }
        },
        ContingencyAction::CloseValve | ContingencyAction::ClosePipe => {
            let twice = apply_contingency_model(once, case);
            assert(twice.pipes =~= once.pipes);
        },
        ContingencyAction::DisableSource => {
            if has_node_id(net.nodes, case.element_id) {
                lemma_first_node_exists(net.nodes, case.element_id);
                let i = choose|i: int| is_first_node_with_id(net.nodes, case.element_id, i);
                assert(is_first_node_with_id(once.nodes, case.element_id, i));
                let j = choose|j: int| is_first_node_with_id(once.nodes, case.element_id, j);
                lemma_first_node_unique(once.nodes, case.element_id, i, j);
                assert(once.nodes.update(i, NodeModel { id: once.nodes[i].id, has_fixed_pressure: false }) =~= once.nodes);
            }
        },
    }
}


/// The element of `case` is out of service in `net`: a removed connection is
/// gone, closed connections are closed, a disabled source no longer imposes
/// its pressure.
pub open spec fn out_of_service(net: NetworkModel, case: CaseModel) -> bool {
    match case.action {
        ContingencyAction::RemovePipe => !has_pipe_id(net.pipes, case.element_id),
        ContingencyAction::CloseValve | ContingencyAction::ClosePipe => forall|k: int|
            0 <= k < net.pipes.len() && #[trigger] net.pipes[k].id == case.element_id
                ==> !net.pipes[k].is_open,
        ContingencyAction::DisableSource => forall|k: int|
            0 <= k < net.nodes.len() && #[trigger] net.nodes[k].id == case.element_id
                ==> !net.nodes[k].has_fixed_pressure,
    }
}

/// Applying a contingency puts its element out of service, when identifiers are
/// unique among the connections and among the nodes.
pub proof fn lemma_applied_case_out_of_service(net: NetworkModel, case: CaseModel)
    requires
        distinct_pipe_ids(net.pipes),
        distinct_node_ids(net.nodes),
    ensures
        out_of_service(apply_contingency_model(net, case), case),
{
    let after = apply_contingency_model(net, case);
    match case.action {
        ContingencyAction::RemovePipe => {
            if has_pipe_id(net.pipes, case.element_id) {
                lemma_first_pipe_exists(net.pipes, case.element_id);
                let i = choose|i: int| is_first_pipe_with_id(net.pipes, case.element_id, i);
                if has_pipe_id(after.pipes, case.element_id) {
                    let k = choose|k: int|
                        0 <= k < after.pipes.len() && after.pipes[k].id == case.element_id;
                    if k < i {
                        assert(after.pipes[k] == net.pipes[k]);
                    } else {
                        assert(after.pipes[k] == net.pipes[k + 1]);
                    }
                }
            }
        },
        ContingencyAction::CloseValve | ContingencyAction::ClosePipe => {},
        ContingencyAction::DisableSource => {
            if has_node_id(net.nodes, case.element_id) {
                lemma_first_node_exists(net.nodes, case.element_id);
                let i = choose|i: int| is_first_node_with_id(net.nodes, case.element_id, i);
                assert forall|k: int|
                    0 <= k < after.nodes.len() && #[trigger] after.nodes[k].id == case.element_id
                        implies !after.nodes[k].has_fixed_pressure by {
                    if k != i {
                        assert(after.nodes[k] == net.nodes[k]);
                        if k < i {
                            assert(net.nodes[k].id != net.nodes[i].id);
                        } else {
                            assert(net.nodes[i].id != net.nodes[k].id);
                        }
                    }
                }
            }
        },
    }
}

/// `id` is the downstream node of some delivery station.
pub open spec fn is_delivery_target(pipes: Seq<PipeModel>, id: Seq<char>) -> bool {
    exists|i: int|
        0 <= i < pipes.len() && pipes[i].kind == ConnectionKind::DeliveryStation && pipes[i].to
            == id
}

pub(crate) fn push_unique(out: &mut Vec<String>, s: &String)
    requires
        string_views(old(out)@).no_duplicates(),
    ensures
        string_views(final(out)@).no_duplicates(),
        forall|t: Seq<char>|
            string_views(final(out)@).contains(t) <==> (string_views(old(out)@).contains(t)
                || t == s@),
{
    if !contains_string(out, s) {
        let ghost prev = string_views(out@);
        out.push(s.clone());
        proof {
            assert(string_views(out@) =~= prev.push(s@));
            assert forall|t: Seq<char>| string_views(out@).contains(t) <==> (prev.contains(t) || t == s@) by {
                if t == s@ {
                    assert(string_views(out@)[prev.len() as int] == t);
                }
                if prev.contains(t) {
                    let j = choose|j: int| 0 <= j < prev.len() && prev[j] == t;
                    assert(string_views(out@)[j] == t);
                }
            }
        }
    }
}

/// Nodes whose delivery pressure a contingency study watches: the nodes with a
/// withdrawal (`withdrawal_ids`, the nodes whose demand is negative) and the
/// downstream nodes of delivery stations, each listed once.
pub fn monitored_node_ids(network: &GasNetwork, withdrawal_ids: &Vec<String>) -> (r: Vec<String>)
    ensures
        string_views(r@).no_duplicates(),
        forall|t: Seq<char>|
            string_views(r@).contains(t) <==> (string_views(withdrawal_ids@).contains(t)
                || is_delivery_target(network@.pipes, t)),
{
    let mut out: Vec<String> = Vec::new();
    let mut i: usize = 0;
    while i < withdrawal_ids.len()
        invariant
            0 <= i <= withdrawal_ids.len(),
            string_views(out@).no_duplicates(),
            forall|t: Seq<char>|
                string_views(out@).contains(t) <==> exists|j: int|
                    0 <= j < i && withdrawal_ids@[j]@ == t,
        decreases withdrawal_ids.len() - i,
    {
        push_unique(&mut out, &withdrawal_ids[i]);
        proof {
            assert forall|t: Seq<char>|
                string_views(out@).contains(t) <==> exists|j: int|
                    0 <= j < i + 1 && withdrawal_ids@[j]@ == t by {
                if t == withdrawal_ids@[i as int]@ {
                    assert(0 <= i < i + 1 && withdrawal_ids@[i as int]@ == t);
                }
            }
        }
        i = i + 1;
    }
    let mut k: usize = 0;
    while k < network.pipes.len()
        invariant
            0 <= k <= network.pipes.len(),
            string_views(out@).no_duplicates(),
            forall|t: Seq<char>|
                string_views(out@).contains(t) <==> ((exists|j: int|
                    0 <= j < withdrawal_ids@.len() && withdrawal_ids@[j]@ == t) || exists|m: int|
                    0 <= m < k && network@.pipes[m].kind == ConnectionKind::DeliveryStation
                        && network@.pipes[m].to == t),
        decreases network.pipes.len() - k,
    {
        if network.pipes[k].kind == ConnectionKind::DeliveryStation {
            push_unique(&mut out, &network.pipes[k].to);
        }
        proof {
            assert forall|t: Seq<char>|
                string_views(out@).contains(t) <==> ((exists|j: int|
                    0 <= j < withdrawal_ids@.len() && withdrawal_ids@[j]@ == t) || exists|m: int|
                    0 <= m < k + 1 && network@.pipes[m].kind == ConnectionKind::DeliveryStation
                        && network@.pipes[m].to == t) by {
                if network@.pipes[k as int].kind == ConnectionKind::DeliveryStation
                    && network@.pipes[k as int].to == t {
                    assert(0 <= k < k + 1);
                }
            }
        }
        k = k + 1;
    }
    proof {
        assert forall|t: Seq<char>|
            string_views(withdrawal_ids@).contains(t) <==> exists|j: int|
                0 <= j < withdrawal_ids@.len() && withdrawal_ids@[j]@ == t by {
            if string_views(withdrawal_ids@).contains(t) {
                let j = choose|j: int|
                    0 <= j < withdrawal_ids@.len() && string_views(withdrawal_ids@)[j] == t;
                assert(withdrawal_ids@[j]@ == t);
            }
            if exists|j: int| 0 <= j < withdrawal_ids@.len() && withdrawal_ids@[j]@ == t {
                let j = choose|j: int| 0 <= j < withdrawal_ids@.len() && withdrawal_ids@[j]@ == t;
                assert(string_views(withdrawal_ids@)[j] == t);
            }
        }
    }
    out
}

/// Outcome of one contingency solve, as the verdict reads it.
pub struct CaseVerdict {
    pub case: ContingencyCase,
    pub converged: bool,
    pub violation_count: usize,
}

pub struct VerdictModel {
    pub case: CaseModel,
    pub converged: bool,
    pub violation_count: nat,
}

impl View for CaseVerdict {
    type V = VerdictModel;

    open spec fn view(&self) -> VerdictModel {
        VerdictModel {
            case: self.case@,
            converged: self.converged,
            violation_count: self.violation_count as nat,
        }
    }
}

pub open spec fn verdict_models(v: Seq<CaseVerdict>) -> Seq<VerdictModel> {
    v.map_values(|c: CaseVerdict| c@)
}

/// A case is red when its solve did not converge or left a pressure violation.
pub open spec fn is_red(v: VerdictModel) -> bool {
    !v.converged || v.violation_count > 0
}

/// Cases of the given colour (red when `red`), in result order.
pub open spec fn cases_of_colour(results: Seq<VerdictModel>, red: bool) -> Seq<CaseModel>
    decreases results.len(),
{
    if results.len() == 0 {
        Seq::empty()
    } else {
        let rest = cases_of_colour(results.drop_last(), red);
        if is_red(results.last()) == red {
            rest.push(results.last().case)
        } else {
            rest
        }
    }
}

/// Verdict of an N-1 study: every result, and the red and green cases.
pub struct ContingencyReport {
    pub results: Vec<CaseVerdict>,
    pub red_cases: Vec<ContingencyCase>,
    pub green_cases: Vec<ContingencyCase>,
}

/// Splits the results of an N-1 study into red cases (not converged, or with a
/// pressure violation) and green cases, keeping the result order.
pub fn finalize_contingency_report(results: Vec<CaseVerdict>) -> (r: ContingencyReport)
    ensures
        verdict_models(r.results@) == verdict_models(results@),
        case_models(r.red_cases@) == cases_of_colour(verdict_models(results@), true),
        case_models(r.green_cases@) == cases_of_colour(verdict_models(results@), false),
{
    let mut red_cases: Vec<ContingencyCase> = Vec::new();
    let mut green_cases: Vec<ContingencyCase> = Vec::new();
    let mut i: usize = 0;
    while i < results.len()
        invariant
            0 <= i <= results.len(),
            case_models(red_cases@) == cases_of_colour(
                verdict_models(results@).take(i as int),
                true,
            ),
            case_models(green_cases@) == cases_of_colour(
                verdict_models(results@).take(i as int),
                false,
            ),
        decreases results.len() - i,
    {
        proof {
            assert(verdict_models(results@).take(i + 1).drop_last() =~= verdict_models(
                results@,
            ).take(i as int));
        }
        let ghost prev_red = case_models(red_cases@);
        let ghost prev_green = case_models(green_cases@);
        if !results[i].converged || results[i].violation_count > 0 {
            red_cases.push(results[i].case.clone());
            proof {
                assert(case_models(red_cases@) =~= prev_red.push(results@[i as int].case@));
            }
        } else {
            green_cases.push(results[i].case.clone());
            proof {
                assert(case_models(green_cases@) =~= prev_green.push(results@[i as int].case@));
            }
        }
        i = i + 1;
    }
    proof {
        assert(verdict_models(results@).take(results.len() as int) =~= verdict_models(results@));
    }
    ContingencyReport { results, red_cases, green_cases }
}

/// Every result of an N-1 study is classified exactly once: the red and green
/// case lists together are as long as the result list.
pub proof fn lemma_report_partitions_results(results: Seq<VerdictModel>)
    ensures
        cases_of_colour(results, true).len() + cases_of_colour(results, false).len()
            == results.len(),
    decreases results.len(),
{
    if results.len() > 0 {
        lemma_report_partitions_results(results.drop_last());
    }
}

} // verus!
