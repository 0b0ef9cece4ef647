//! Topology and index bookkeeping of the steady-state solver: the upstream
//! trace of a boundary node, the nodes held by active regulators, the alias
//! roots of merged nodes, the layout of the free pressure unknowns and the
//! sparsity pattern of the mass-balance Jacobian.

use vstd::prelude::*;
use crate::network::{
    ConnectionKind, GasNetwork, NodeModel, PipeModel, has_node_id, hydraulically_active,
    is_first_node_with_id, is_last_node_with_id, lemma_first_node_unique, lemma_last_node_unique,
    contains_string, node_slot, string_views,
};
use crate::order::utf8_bytes;
use vstd::string::StringSliceAdditionalSpecFns;
use crate::reach::{
    bfs_order, bfs_within, edge_views, has_earlier_source, has_edge, listed_by_distance,
    reach_within,
};

verus! {

/// Progress decision returned by a solver observer.
#[derive(Clone, Copy, Debug, PartialEq, Eq, Structural)]
pub enum SolverControl {
    Continue,
    Cancel,
}

/// Upstream edges (downstream node, upstream node) of the active connections,
/// in connection order.
pub open spec fn upstream_edges(pipes: Seq<PipeModel>) -> Seq<(Seq<char>, Seq<char>)>
    decreases pipes.len(),
{
    if pipes.len() == 0 {
        Seq::empty()
    } else {
        let rest = upstream_edges(pipes.drop_last());
        if hydraulically_active(pipes.last()) {
            rest.push((pipes.last().to, pipes.last().from))
        } else {
            rest
        }
    }
}

/// Connection `p` is active and carries gas from `upstream` to `downstream`.
pub open spec fn feeds(p: PipeModel, downstream: Seq<char>, upstream: Seq<char>) -> bool {
    hydraulically_active(p) && p.to == downstream && p.from == upstream
}

/// The node at position `q` of `trace` feeds, through an active connection,
/// a node listed before it.
pub open spec fn feeds_earlier(pipes: Seq<PipeModel>, trace: Seq<Seq<char>>, q: int) -> bool {
    exists|p: int, k: int|
        0 <= p < q && 0 <= k < pipes.len() && #[trigger] feeds(pipes[k], trace[p], trace[q])
}

/// An upstream step from `a` to `b` goes against the flow of an active
/// connection: one that carries gas from `b` to `a`.
pub proof fn lemma_upstream_step_is_an_active_feed(pipes: Seq<PipeModel>, a: Seq<char>, b: Seq<char>)
    requires
        has_edge(upstream_edges(pipes), a, b),
    ensures
        exists|k: int| 0 <= k < pipes.len() && #[trigger] feeds(pipes[k], a, b),
    decreases pipes.len(),
{
    let e = upstream_edges(pipes);
    let i = choose|i: int| 0 <= i < e.len() && e[i].0 == a && e[i].1 == b;
    let rest = upstream_edges(pipes.drop_last());
    if i < rest.len() {
        assert(rest[i] == e[i]);
        lemma_upstream_step_is_an_active_feed(pipes.drop_last(), a, b);
        let k = choose|k: int| 0 <= k < pipes.drop_last().len() && #[trigger] feeds(pipes.drop_last()[k], a, b);
        assert(pipes[k] == pipes.drop_last()[k]);
    } else {
        assert(feeds(pipes[pipes.len() - 1], a, b));
    }
}

/// Nodes met when walking upstream from `start_node` along active connections,
/// at most `max_hops` connections deep: `start_node` first, each node once, in
/// breadth-first order (nodes of one level in the order they are first met,
/// connections taken in network order). The caller pairs each node with its
/// solved pressure.
pub fn upstream_pressure_trace(network: &GasNetwork, start_node: &String, max_hops: usize) -> (r:
    Vec<String>)
    ensures
        string_views(r@).no_duplicates(),
        r@.len() > 0,
        r@[0]@ == start_node@,
        forall|t: Seq<char>|
            string_views(r@).contains(t) <==> reach_within(
                upstream_edges(network@.pipes),
                start_node@,
                t,
                max_hops as nat,
            ),
        listed_by_distance(upstream_edges(network@.pipes), start_node@, string_views(r@)),
        string_views(r@) == bfs_order(upstream_edges(network@.pipes), start_node@, max_hops as nat),
        forall|q: int|
            1 <= q < r@.len() ==> #[trigger] feeds_earlier(network@.pipes, string_views(r@), q),
{
    let mut edges: Vec<(String, String)> = Vec::new();
    let mut i: usize = 0;
    while i < network.pipes.len()
        invariant
            0 <= i <= network.pipes.len(),
            edge_views(edges@) == upstream_edges(network@.pipes.take(i as int)),
        decreases network.pipes.len() - i,
    {
        proof {
            assert(network@.pipes.take(i + 1).drop_last() =~= network@.pipes.take(i as int));
        }
        if network.pipes[i].hydraulically_active() {
            let ghost prev = edge_views(edges@);
            edges.push((network.pipes[i].to.clone(), network.pipes[i].from.clone()));
            proof {
                assert(edge_views(edges@) =~= prev.push(
                    (network@.pipes[i as int].to, network@.pipes[i as int].from),
                ));
            }
        }
        i = i + 1;
    }
    proof {
        assert(network@.pipes.take(network.pipes.len() as int) =~= network@.pipes);
    }
    let (trace, _) = bfs_within(&edges, start_node, max_hops);
    proof {
        let tv = string_views(trace@);
        assert forall|q: int| 1 <= q < trace@.len() implies #[trigger] feeds_earlier(
            network@.pipes,
            tv,
            q,
        ) by {
            assert(has_earlier_source(edge_views(edges@), tv, q));
            let p = choose|p: int| 0 <= p < q && #[trigger] has_edge(edge_views(edges@), tv[p], tv[q]);
            lemma_upstream_step_is_an_active_feed(network@.pipes, tv[p], tv[q]);
            let k = choose|k: int|
                0 <= k < network@.pipes.len() && #[trigger] feeds(network@.pipes[k], tv[p], tv[q]);
            assert(0 <= p < q && 0 <= k < network@.pipes.len() && feeds(network@.pipes[k], tv[p], tv[q]));
        }
    }
    trace
}

/// A connection whose downstream pressure a regulator imposes.
pub open spec fn is_regulating(p: PipeModel, control_valve_soft_setpoint: bool) -> bool {
    &&& hydraulically_active(p)
    &&& !(p.kind == ConnectionKind::ControlValve && control_valve_soft_setpoint)
    &&& (p.kind == ConnectionKind::PressureRegulator || p.kind == ConnectionKind::DeliveryStation
        || p.kind == ConnectionKind::ControlValve)
}

/// Node `idx` is the pressure-fixed outlet of a regulating connection.
pub open spec fn is_active_regulator_node(
    nodes: Seq<NodeModel>,
    pipes: Seq<PipeModel>,
    fixed: Seq<bool>,
    control_valve_soft_setpoint: bool,
    idx: int,
) -> bool {
    &&& 0 <= idx < nodes.len()
    &&& fixed[idx]
    &&& is_last_node_with_id(nodes, nodes[idx].id, idx)
    &&& exists|k: int|
        0 <= k < pipes.len() && is_regulating(pipes[k], control_valve_soft_setpoint)
            && #[trigger] pipes[k].to == nodes[idx].id
}

/// An active regulator node is a pressure-fixed node fed by an open pressure
/// regulator, delivery station or control valve (a control valve neither shut
/// nor carrying only a soft set-point).
pub proof fn lemma_active_regulator_node_is_fed_by_open_regulator(
    nodes: Seq<NodeModel>,
    pipes: Seq<PipeModel>,
    fixed: Seq<bool>,
    control_valve_soft_setpoint: bool,
    idx: int,
)
    requires
        is_active_regulator_node(nodes, pipes, fixed, control_valve_soft_setpoint, idx),
    ensures
        fixed[idx],
        exists|k: int|
            0 <= k < pipes.len() && #[trigger] pipes[k].to == nodes[idx].id && pipes[k].is_open && !(
            pipes[k].kind == ConnectionKind::ControlValve && (pipes[k].control_valve_shut
                || control_valve_soft_setpoint)) && (pipes[k].kind == ConnectionKind::PressureRegulator
                || pipes[k].kind == ConnectionKind::DeliveryStation || pipes[k].kind
                == ConnectionKind::ControlValve),
{
    let k = choose|k: int|
        0 <= k < pipes.len() && is_regulating(pipes[k], control_valve_soft_setpoint)
            && #[trigger] pipes[k].to == nodes[idx].id;
    assert(pipes[k].to == nodes[idx].id);
}

/// Positions of the pressure-fixed nodes fed by an active pressure regulator,
/// delivery station or control valve (control valves excluded when they only
/// carry a soft set-point), in increasing order.
pub fn collect_active_regulator_nodes(
    network: &GasNetwork,
    fixed: &Vec<bool>,
    control_valve_soft_setpoint: bool,
) -> (r: Vec<usize>)
    requires
        fixed@.len() == network@.nodes.len(),
    ensures
        forall|a: int, b: int| 0 <= a < b < r@.len() ==> r@[a] < r@[b],
        forall|idx: usize|
            r@.contains(idx) <==> is_active_regulator_node(
                network@.nodes,
                network@.pipes,
                fixed@,
                control_valve_soft_setpoint,
                idx as int,
            ),
        forall|idx: usize|
            #[trigger] r@.contains(idx) ==> idx < network@.nodes.len() && fixed@[idx as int] && exists|k: int|
                0 <= k < network@.pipes.len() && #[trigger] network@.pipes[k].to == network@.nodes[idx as int].id
                    && network@.pipes[k].is_open && !(network@.pipes[k].kind == ConnectionKind::ControlValve
                    && (network@.pipes[k].control_valve_shut || control_valve_soft_setpoint)) && (
                network@.pipes[k].kind == ConnectionKind::PressureRegulator || network@.pipes[k].kind
                    == ConnectionKind::DeliveryStation || network@.pipes[k].kind
                    == ConnectionKind::ControlValve),
{
    let n = network.nodes.len();
    let mut fed: Vec<bool> = Vec::new();
    let mut j: usize = 0;
    while j < n
        invariant
            n == network.nodes.len(),
            0 <= j <= n,
            fed@.len() == j,
            forall|q: int| 0 <= q < j ==> !fed@[q],
        decreases n - j,
    {
        fed.push(false);
        j = j + 1;
    }
    let mut k: usize = 0;
    while k < network.pipes.len()
        invariant
            n == network.nodes.len(),
            0 <= k <= network.pipes.len(),
            fed@.len() == n,
            forall|q: int|
                0 <= q < n ==> (fed@[q] <==> is_last_node_with_id(network@.nodes, network@.nodes[q].id, q)
                    && exists|m: int|
                    0 <= m < k && is_regulating(network@.pipes[m], control_valve_soft_setpoint)
                        && #[trigger] network@.pipes[m].to == network@.nodes[q].id),
        decreases network.pipes.len() - k,
    {
        let p = &network.pipes[k];
        let regulating = p.hydraulically_active() && !(matches!(
            p.kind,
            ConnectionKind::ControlValve,
        ) && control_valve_soft_setpoint) && (matches!(p.kind, ConnectionKind::PressureRegulator)
            || matches!(p.kind, ConnectionKind::DeliveryStation) || matches!(
            p.kind,
            ConnectionKind::ControlValve,
        ));
        if regulating {
            match network.node_index(&p.to) {
                Some(q) => {
                    fed.set(q, true);
                },
                None => {},
            }
        }
        proof {
            assert forall|q: int|
                0 <= q < n implies (fed@[q] <==> is_last_node_with_id(
                    network@.nodes,
                    network@.nodes[q].id,
                    q,
                ) && exists|m: int|
                    0 <= m < k + 1 && is_regulating(network@.pipes[m], control_valve_soft_setpoint)
                        && #[trigger] network@.pipes[m].to == network@.nodes[q].id) by {
                if regulating && network@.pipes[k as int].to == network@.nodes[q].id {
                    assert(0 <= k < k + 1);
                    assert(has_node_id(network@.nodes, network@.pipes[k as int].to));
                    let m = node_slot(network@.nodes, network@.pipes[k as int].to);
                    if is_last_node_with_id(network@.nodes, network@.nodes[q].id, q) {
                        lemma_last_node_unique(network@.nodes, network@.pipes[k as int].to, m, q);
                    }
                }
            }
        }
        k = k + 1;
    }
    let mut out: Vec<usize> = Vec::new();
    let mut q: usize = 0;
    while q < n
        invariant
            n == network.nodes.len(),
            0 <= q <= n,
            fed@.len() == n,
            fixed@.len() == n,
            forall|a: int, b: int| 0 <= a < b < out@.len() ==> out@[a] < out@[b],
            forall|a: int| 0 <= a < out@.len() ==> out@[a] < q,
            forall|q2: int|
                0 <= q2 < n ==> (fed@[q2] <==> is_last_node_with_id(
                    network@.nodes,
                    network@.nodes[q2].id,
                    q2,
                ) && exists|m: int|
                    0 <= m < network@.pipes.len() && is_regulating(network@.pipes[m], control_valve_soft_setpoint)
                        && #[trigger] network@.pipes[m].to == network@.nodes[q2].id),
            forall|idx: usize|
                out@.contains(idx) <==> (idx < q && fed@[idx as int] && fixed@[idx as int]),
        decreases n - q,
    {
        if fed[q] && fixed[q] {
            let ghost prev = out@;
            out.push(q);
            proof {
                assert forall|idx: usize|
                    out@.contains(idx) <==> (idx < q + 1 && fed@[idx as int] && fixed@[idx as int]) by {
                    if idx == q {
                        assert(out@[prev.len() as int] == q);
                    }
                    if prev.contains(idx) {
                        let w = choose|w: int| 0 <= w < prev.len() && prev[w] == idx;
                        assert(out@[w] == idx);
                    }
                    if out@.contains(idx) {
                        let w = choose|w: int| 0 <= w < out@.len() && out@[w] == idx;
                        if w < prev.len() {
                            assert(prev.contains(idx));
                        }
                    }
                }
            }
        }
        q = q + 1;
    }
    proof {
        assert forall|idx: usize| #[trigger] out@.contains(idx) implies idx < network@.nodes.len()
            && fixed@[idx as int] && exists|k: int|
            0 <= k < network@.pipes.len() && #[trigger] network@.pipes[k].to == network@.nodes[idx as int].id
                && network@.pipes[k].is_open && !(network@.pipes[k].kind == ConnectionKind::ControlValve
                && (network@.pipes[k].control_valve_shut || control_valve_soft_setpoint)) && (
            network@.pipes[k].kind == ConnectionKind::PressureRegulator || network@.pipes[k].kind
                == ConnectionKind::DeliveryStation || network@.pipes[k].kind
                == ConnectionKind::ControlValve) by {
            assert(fed@[idx as int]);
            let k = choose|k: int|
                0 <= k < network@.pipes.len() && is_regulating(network@.pipes[k], control_valve_soft_setpoint)
                    && #[trigger] network@.pipes[k].to == network@.nodes[idx as int].id;
            assert(network@.pipes[k].to == network@.nodes[idx as int].id);
        }
    }
    out
}


/// The flow-graph link of connection `k`, if it has one: an active connection
/// between known nodes whose canonical ends differ (and, when compressor arcs
/// are taken out of the flow graph, that is not a compressor station), as its
/// position and its canonical from and to nodes.
pub open spec fn index_link_of(
    nodes: Seq<NodeModel>,
    pipes: Seq<PipeModel>,
    resolve: Seq<usize>,
    skip_compressors: bool,
    k: int,
) -> Option<(usize, usize, usize)> {
    let p = pipes[k];
    if !hydraulically_active(p) || !has_node_id(nodes, p.from) || !has_node_id(nodes, p.to) {
        None
    } else {
        let f = resolve[node_slot(nodes, p.from)];
        let t = resolve[node_slot(nodes, p.to)];
        if f == t || (skip_compressors && p.kind == ConnectionKind::CompressorStation) {
            None
        } else {
            Some((k as usize, f, t))
        }
    }
}

/// The flow-graph links of the first `n` connections, in connection order.
pub open spec fn index_links_of(
    nodes: Seq<NodeModel>,
    pipes: Seq<PipeModel>,
    resolve: Seq<usize>,
    skip_compressors: bool,
    n: nat,
) -> Seq<(usize, usize, usize)>
    decreases n,
{
    if n == 0 {
        Seq::empty()
    } else {
        let rest = index_links_of(nodes, pipes, resolve, skip_compressors, (n - 1) as nat);
        match index_link_of(nodes, pipes, resolve, skip_compressors, n - 1) {
            Some(l) => rest.push(l),
            None => rest,
        }
    }
}

/// The links of the solver's flow graph: for each active connection between
/// known nodes, in network order, its position and its canonical end nodes
/// (`resolve` maps node positions to canonical ones), leaving out links whose
/// ends merge and, when `skip_compressors`, compressor stations.
pub fn index_links(network: &GasNetwork, resolve: &Vec<usize>, skip_compressors: bool) -> (r: Vec<
    (usize, usize, usize),
>)
    requires
        resolve@.len() == network@.nodes.len(),
    ensures
        r@ == index_links_of(
            network@.nodes,
            network@.pipes,
            resolve@,
            skip_compressors,
            network@.pipes.len(),
        ),
{
    let mut out: Vec<(usize, usize, usize)> = Vec::new();
    let mut k: usize = 0;
    while k < network.pipes.len()
        invariant
            0 <= k <= network.pipes.len(),
            resolve@.len() == network@.nodes.len(),
            out@ == index_links_of(network@.nodes, network@.pipes, resolve@, skip_compressors, k as nat),
        decreases network.pipes.len() - k,
    {
        let p = &network.pipes[k];
        if p.hydraulically_active() {
            match (network.node_index(&p.from), network.node_index(&p.to)) {
                (Some(a), Some(b)) => {
                    let f = resolve[a];
                    let t = resolve[b];
                    if f != t && !(skip_compressors && matches!(p.kind, ConnectionKind::CompressorStation)) {
                        out.push((k, f, t));
                    }
                },
                _ => {},
            }
        }
        k = k + 1;
    }
    out
}

/// Node positions of the given identifiers (as an identifier-to-position table
/// gives them), or the index of the first identifier that names no node.
pub fn demand_positions(network: &GasNetwork, ids: &Vec<String>) -> (r: Result<Vec<usize>, usize>)
    ensures
        match r {
            Ok(v) => v@.len() == ids@.len() && forall|i: int|
                0 <= i < ids@.len() ==> is_last_node_with_id(network@.nodes, ids@[i]@, #[trigger] v@[i] as int),
            Err(i) => i < ids@.len() && !has_node_id(network@.nodes, ids@[i as int]@) && forall|j: int|
                0 <= j < i ==> has_node_id(network@.nodes, #[trigger] ids@[j]@),
        },
{
    let mut out: Vec<usize> = Vec::new();
    let mut i: usize = 0;
    while i < ids.len()
        invariant
            0 <= i <= ids@.len(),
            out@.len() == i,
            forall|j: int| 0 <= j < i ==> is_last_node_with_id(network@.nodes, ids@[j]@, #[trigger] out@[j] as int),
        decreases ids@.len() - i,
    {
        match network.node_index(&ids[i]) {
            Some(q) => {
                out.push(q);
            },
            None => {
                proof {
                    assert forall|j: int| 0 <= j < i implies has_node_id(network@.nodes, #[trigger] ids@[j]@) by {
                        assert(is_last_node_with_id(network@.nodes, ids@[j]@, out@[j] as int));
                    }
                }
                return Err(i);
            },
        }
        i = i + 1;
    }
    Ok(out)
}

/// Where `k` alias steps lead from `i`.
pub open spec fn follow(parent: Seq<usize>, i: int, k: nat) -> int
    decreases k,
{
    if k == 0 {
        i
    } else {
        follow(parent, parent[i] as int, (k - 1) as nat)
    }
}

/// Every entry of `parent` is a valid position.
pub open spec fn parents_in_range(parent: Seq<usize>) -> bool {
    forall|i: int| 0 <= i < parent.len() ==> #[trigger] parent[i] < parent.len()
}

proof fn lemma_follow_succ(parent: Seq<usize>, i: int, k: nat)
    requires
        parents_in_range(parent),
        0 <= i < parent.len(),
    ensures
        follow(parent, i, k + 1) == parent[follow(parent, i, k)] as int,
    decreases k,
{
    assert(parent[i] < parent.len());
    if k > 0 {
        lemma_follow_succ(parent, parent[i] as int, (k - 1) as nat);
        assert(follow(parent, i, k + 1) == follow(parent, parent[i] as int, k));
        assert(follow(parent, i, k) == follow(parent, parent[i] as int, (k - 1) as nat));
    } else {
        assert(follow(parent, parent[i] as int, 0) == parent[i] as int);
        assert(follow(parent, i, 1) == follow(parent, parent[i] as int, 0));
    }
}

proof fn lemma_follow_root_stays(parent: Seq<usize>, i: int, kr: nat, k: nat)
    requires
        parents_in_range(parent),
        0 <= i < parent.len(),
        kr <= k,
        parent[follow(parent, i, kr)] as int == follow(parent, i, kr),
    ensures
        follow(parent, i, k) == follow(parent, i, kr),
    decreases k,
{
    if kr < k {
        lemma_follow_root_stays(parent, i, kr, (k - 1) as nat);
        lemma_follow_succ(parent, i, (k - 1) as nat);
    }
}

/// `k` alias steps from `i` lead to a root (an entry that is its own parent).
pub open spec fn root_after(parent: Seq<usize>, i: int, k: nat) -> bool {
    parent[follow(parent, i, k)] as int == follow(parent, i, k)
}

/// Every alias chain ends at a root.
pub open spec fn chains_end_at_roots(parent: Seq<usize>) -> bool {
    forall|i: int|
        #![trigger parent[i]]
        0 <= i < parent.len() ==> exists|k: nat| #[trigger] root_after(parent, i, k)
}

/// A number of steps after which the chain from `i` sits at a root.
proof fn lemma_chain_length(parent: Seq<usize>, i: int) -> (k: nat)
    requires
        chains_end_at_roots(parent),
        0 <= i < parent.len(),
    ensures
        root_after(parent, i, k),
{
    assert(parent[i] == parent[i]);
    choose|k: nat| root_after(parent, i, k)
}

/// Walks the chain from `i` to its root; returns the root with the number of
/// steps taken.
fn chain_root(parent: &Vec<usize>, i: usize) -> (r: (usize, Ghost<nat>))
    requires
        parents_in_range(parent@),
        chains_end_at_roots(parent@),
        i < parent@.len(),
    ensures
        r.0 < parent@.len(),
        r.0 as int == follow(parent@, i as int, r.1@),
        parent@[r.0 as int] == r.0,
{
    let ghost kr = lemma_chain_length(parent@, i as int);
    let mut cur: usize = i;
    let ghost mut k: nat = 0;
    while parent[cur] != cur
        invariant
            parents_in_range(parent@),
            i < parent@.len(),
            cur < parent@.len(),
            cur as int == follow(parent@, i as int, k),
            root_after(parent@, i as int, kr),
            k <= kr,
        decreases kr - k,
    {
        proof {
            lemma_follow_succ(parent@, i as int, k);
            if k == kr {
                assert(false);
            }
        }
        cur = parent[cur];
        proof {
            k = k + 1;
        }
    }
    (cur, Ghost(k))
}

/// Replaces every alias by the root its chain ends at, so that each entry
/// points directly to its canonical node.
pub fn resolve_alias_roots(parent: &Vec<usize>) -> (r: Vec<usize>)
    requires
        parents_in_range(parent@),
        chains_end_at_roots(parent@),
    ensures
        r@.len() == parent@.len(),
        forall|i: int|
            0 <= i < r@.len() ==> parent@[r@[i] as int] == r@[i] && exists|k: nat|
                follow(parent@, i, k) == r@[i] as int,
        forall|i: int| 0 <= i < r@.len() ==> r@[r@[i] as int] == r@[i],
{
    let n = parent.len();
    let mut out: Vec<usize> = Vec::new();
    let ghost mut ks: Seq<nat> = Seq::empty();
    let mut i: usize = 0;
    while i < n
        invariant
            n == parent@.len(),
            parents_in_range(parent@),
            chains_end_at_roots(parent@),
            0 <= i <= n,
            out@.len() == i,
            ks.len() == i,
            forall|q: int|
                #![trigger out@[q]]
                0 <= q < i ==> out@[q] < n && parent@[out@[q] as int] == out@[q] && follow(
                    parent@,
                    q,
                    ks[q],
                ) == out@[q] as int,
        decreases n - i,
    {
        let (root, Ghost(k)) = chain_root(parent, i);
        let ghost prev_out = out@;
        let ghost prev_ks = ks;
        out.push(root);
        proof {
            ks = ks.push(k);
            assert forall|q: int|
                #![trigger out@[q]]
                0 <= q < i + 1 implies out@[q] < n && parent@[out@[q] as int] == out@[q] && follow(
                    parent@,
                    q,
                    ks[q],
                ) == out@[q] as int by {
                if q < i {
                    assert(out@[q] == prev_out[q] && ks[q] == prev_ks[q]);
                    assert(prev_out[q] < n);
                } else {
                    assert(out@[q] == root && ks[q] == k);
                }
            }
        }
        i = i + 1;
    }
    proof {
        assert forall|q: int| 0 <= q < out@.len() implies parent@[out@[q] as int] == out@[q]
            && exists|k: nat| follow(parent@, q, k) == out@[q] as int by {
            assert(follow(parent@, q, ks[q]) == out@[q] as int);
        }
        assert forall|q: int| 0 <= q < out@.len() implies out@[out@[q] as int] == out@[q] by {
            let r = out@[q] as int;
            assert(out@[q] < n);
            assert(out@[r] < n);
            assert(follow(parent@, r, ks[r]) == out@[r] as int);
            assert(parent@[r] as int == r);
            lemma_follow_root_stays(parent@, r, 0, ks[r]);
        }
    }
    out
}

/// Alias parents being built, with the recorded aliases: (alias, parent, the
/// compressor connection for a coupled outlet).
pub type AliasState = (Seq<usize>, Seq<(usize, usize, Option<usize>)>);

/// Every node its own parent.
pub open spec fn identity_parents(n: nat) -> Seq<usize> {
    Seq::new(n, |i: int| i as usize)
}

/// A short-pipe pair `(source, sink)` merges the source into the sink when
/// both are nodes and the source (its first node) has no imposed pressure.
pub open spec fn merge_step(nodes: Seq<NodeModel>, st: AliasState, pair: (Seq<char>, Seq<char>)) -> AliasState {
    let (source, sink) = pair;
    if !has_node_id(nodes, sink) || !has_node_id(nodes, source) {
        st
    } else if nodes[choose|i: int| is_first_node_with_id(nodes, source, i)].has_fixed_pressure {
        st
    } else {
        let master = node_slot(nodes, sink) as usize;
        let slave = node_slot(nodes, source) as usize;
        (st.0.update(slave as int, master), st.1.push((slave, master, None)))
    }
}

/// The state after the first `m` short-pipe pairs.
pub open spec fn merges_upto(nodes: Seq<NodeModel>, pairs: Seq<(Seq<char>, Seq<char>)>, m: nat) -> AliasState
    decreases m,
{
    if m == 0 {
        (identity_parents(nodes.len()), Seq::empty())
    } else {
        merge_step(nodes, merges_upto(nodes, pairs, (m - 1) as nat), pairs[m - 1])
    }
}

/// An active compressor station `k` with an admissible ratio couples its
/// outlet's current parent to its inlet's, when these differ and the outlet's
/// parent is still its own parent.
pub open spec fn coupling_step(
    nodes: Seq<NodeModel>,
    pipes: Seq<PipeModel>,
    ratio_ok: Seq<bool>,
    st: AliasState,
    k: int,
) -> AliasState {
    let p = pipes[k];
    if p.kind != ConnectionKind::CompressorStation || !hydraulically_active(p) || !has_node_id(
        nodes,
        p.to,
    ) || !has_node_id(nodes, p.from) {
        st
    } else {
        let inlet_c = st.0[node_slot(nodes, p.from)];
        let outlet_c = st.0[node_slot(nodes, p.to)];
        if outlet_c == inlet_c || st.0[outlet_c as int] != outlet_c || !ratio_ok[k] {
            st
        } else {
            (st.0.update(outlet_c as int, inlet_c), st.1.push((outlet_c, inlet_c, Some(k as usize))))
        }
    }
}

/// The state after the first `m` connections are considered for coupling.
pub open spec fn couplings_upto(
    nodes: Seq<NodeModel>,
    pipes: Seq<PipeModel>,
    ratio_ok: Seq<bool>,
    base: AliasState,
    m: nat,
) -> AliasState
    decreases m,
{
    if m == 0 {
        base
    } else {
        coupling_step(nodes, pipes, ratio_ok, couplings_upto(nodes, pipes, ratio_ok, base, (m - 1) as nat), m - 1)
    }
}

/// Alias parents of the steady-state solver: short-pipe merges first (when
/// enabled), then compressor couplings (when enabled).
pub open spec fn alias_plan_of(
    nodes: Seq<NodeModel>,
    pipes: Seq<PipeModel>,
    pairs: Seq<(Seq<char>, Seq<char>)>,
    ratio_ok: Seq<bool>,
    shortpipe_merge: bool,
    hard_coupling: bool,
) -> AliasState {
    let merged = if shortpipe_merge {
        merges_upto(nodes, pairs, pairs.len())
    } else {
        merges_upto(nodes, pairs, 0)
    };
    if hard_coupling {
        couplings_upto(nodes, pipes, ratio_ok, merged, pipes.len())
    } else {
        merged
    }
}

pub open spec fn pair_views(pairs: Seq<(String, String)>) -> Seq<(Seq<char>, Seq<char>)> {
    pairs.map_values(|p: (String, String)| (p.0@, p.1@))
}

/// What the recorded aliases say of a plan over `n` nodes: each compressor
/// coupling names an active compressor station with an admissible ratio (and
/// couplings are enabled), each merge comes from an enabled short-pipe merge,
/// and a node differs from its own parent only where an alias records that
/// parent for it.
pub open spec fn plan_accounts_for_parents(
    pipes: Seq<PipeModel>,
    ratio_ok: Seq<bool>,
    shortpipe_merge: bool,
    hard_coupling: bool,
    parent: Seq<usize>,
    slaves: Seq<(usize, usize, Option<usize>)>,
) -> bool {
    &&& forall|j: int|
        0 <= j < slaves.len() && #[trigger] slaves[j].2 is Some ==> {
            let k = slaves[j].2->0 as int;
            &&& hard_coupling
            &&& 0 <= k < pipes.len()
            &&& pipes[k].kind == ConnectionKind::CompressorStation
            &&& pipes[k].is_open
            &&& ratio_ok[k]
        }
    &&& forall|j: int| 0 <= j < slaves.len() && #[trigger] slaves[j].2 is None ==> shortpipe_merge
    &&& forall|i: int|
        0 <= i < parent.len() ==> #[trigger] parent[i] as int == i || exists|j: int|
            0 <= j < slaves.len() && slaves[j].0 as int == i && #[trigger] slaves[j].1 == parent[i]
}

proof fn lemma_plan_record(
    pipes: Seq<PipeModel>,
    ratio_ok: Seq<bool>,
    shortpipe_merge: bool,
    hard_coupling: bool,
    parent: Seq<usize>,
    slaves: Seq<(usize, usize, Option<usize>)>,
    i: usize,
    v: usize,
    through: Option<usize>,
)
    requires
        plan_accounts_for_parents(pipes, ratio_ok, shortpipe_merge, hard_coupling, parent, slaves),
        i < parent.len(),
        through is None ==> shortpipe_merge,
        through is Some ==> {
            let k = through->0 as int;
            &&& hard_coupling
            &&& 0 <= k < pipes.len()
            &&& pipes[k].kind == ConnectionKind::CompressorStation
            &&& pipes[k].is_open
            &&& ratio_ok[k]
        },
    ensures
        plan_accounts_for_parents(
            pipes,
            ratio_ok,
            shortpipe_merge,
            hard_coupling,
            parent.update(i as int, v),
            slaves.push((i, v, through)),
        ),
{
    let p2 = parent.update(i as int, v);
    let s2 = slaves.push((i, v, through));
    assert forall|j: int| 0 <= j < s2.len() && #[trigger] s2[j].2 is Some implies {
        let k = s2[j].2->0 as int;
        &&& hard_coupling
        &&& 0 <= k < pipes.len()
        &&& pipes[k].kind == ConnectionKind::CompressorStation
        &&& pipes[k].is_open
        &&& ratio_ok[k]
    } by {
        if j < slaves.len() {
            assert(s2[j] == slaves[j]);
            assert(slaves[j].2 is Some);
        }
    }
    assert forall|j: int| 0 <= j < s2.len() && #[trigger] s2[j].2 is None implies shortpipe_merge by {
        if j < slaves.len() {
            assert(s2[j] == slaves[j]);
            assert(slaves[j].2 is None);
        }
    }
    assert forall|x: int|
        0 <= x < p2.len() implies #[trigger] p2[x] as int == x || exists|j: int|
            0 <= j < s2.len() && s2[j].0 as int == x && #[trigger] s2[j].1 == p2[x] by {
        if x == i as int {
            let j = slaves.len() as int;
            assert(s2[j].0 as int == x && s2[j].1 == p2[x]);
        } else {
            assert(p2[x] == parent[x]);
            if parent[x] as int != x {
                let j = choose|j: int|
                    0 <= j < slaves.len() && slaves[j].0 as int == x && #[trigger] slaves[j].1 == parent[x];
                assert(s2[j] == slaves[j]);
                assert(s2[j].0 as int == x && s2[j].1 == p2[x]);
            }
        }
    }
}

/// One coupling step records a coupling only for an active compressor station
/// with an admissible ratio; any other connection leaves the plan unchanged.
pub proof fn lemma_coupling_only_through_active_stations(
    nodes: Seq<NodeModel>,
    pipes: Seq<PipeModel>,
    ratio_ok: Seq<bool>,
    st: AliasState,
    k: int,
)
    requires
        0 <= k < pipes.len(),
    ensures
        !(pipes[k].kind == ConnectionKind::CompressorStation && hydraulically_active(pipes[k])
            && ratio_ok[k]) ==> coupling_step(nodes, pipes, ratio_ok, st, k) == st,
        coupling_step(nodes, pipes, ratio_ok, st, k) != st ==> coupling_step(nodes, pipes, ratio_ok, st, k).1
            == st.1.push((coupling_step(nodes, pipes, ratio_ok, st, k).1.last().0, coupling_step(
            nodes,
            pipes,
            ratio_ok,
            st,
            k,
        ).1.last().1, Some(k as usize))),
{
}

/// Alias parents of merged and coupled nodes, before chains are compressed.
///
/// `pairs` are the short-pipe boundary pairs `(source, sink)`; `ratio_ok[k]`
/// tells whether connection `k`, as a compressor station, has a ratio above 1.
/// Returns the parents and, in the order made, each alias with its parent and,
/// for a compressor coupling, the station's position.
pub fn alias_plan(
    network: &GasNetwork,
    pairs: &Vec<(String, String)>,
    ratio_ok: &Vec<bool>,
    shortpipe_merge: bool,
    hard_coupling: bool,
) -> (r: (Vec<usize>, Vec<(usize, usize, Option<usize>)>))
    requires
        ratio_ok@.len() == network@.pipes.len(),
    ensures
        (r.0@, r.1@) == alias_plan_of(
            network@.nodes,
            network@.pipes,
            pair_views(pairs@),
            ratio_ok@,
            shortpipe_merge,
            hard_coupling,
        ),
        parents_in_range(r.0@),
        plan_accounts_for_parents(network@.pipes, ratio_ok@, shortpipe_merge, hard_coupling, r.0@, r.1@),
{
    let ghost nodes = network@.nodes;
    let n = network.nodes.len();
    let mut parent: Vec<usize> = Vec::new();
    let mut i: usize = 0;
    while i < n
        invariant
            n == nodes.len(),
            0 <= i <= n,
            parent@ == identity_parents(i as nat),
        decreases n - i,
    {
        parent.push(i);
        proof {
            assert(parent@ =~= identity_parents((i + 1) as nat));
        }
        i = i + 1;
    }
    let mut slaves: Vec<(usize, usize, Option<usize>)> = Vec::new();
    proof {
        assert(slaves@ =~= Seq::<(usize, usize, Option<usize>)>::empty());
    }
    if shortpipe_merge {
        let mut m: usize = 0;
        while m < pairs.len()
            invariant
                nodes == network@.nodes,
                n == nodes.len(),
                0 <= m <= pairs@.len(),
                (parent@, slaves@) == merges_upto(nodes, pair_views(pairs@), m as nat),
                parents_in_range(parent@),
                parent@.len() == n,
                shortpipe_merge,
                ratio_ok@.len() == network@.pipes.len(),
                plan_accounts_for_parents(network@.pipes, ratio_ok@, shortpipe_merge, hard_coupling, parent@, slaves@),
            decreases pairs@.len() - m,
        {
            let ghost before = (parent@, slaves@);
            let (source, sink) = (&pairs[m].0, &pairs[m].1);
            proof {
                assert(pair_views(pairs@)[m as int] == (source@, sink@));
            }
            match (network.node_index(sink), network.node_index(source)) {
                (Some(master), Some(slave)) => {
                    match network.node_position(source) {
                        Some(first) => {
                            proof {
                                let c = choose|c: int| is_first_node_with_id(nodes, source@, c);
                                lemma_first_node_unique(nodes, source@, c, first as int);
                            }
                            if !network.nodes[first].has_fixed_pressure {
                                proof {
                                    lemma_plan_record(
                                        network@.pipes,
                                        ratio_ok@,
                                        shortpipe_merge,
                                        hard_coupling,
                                        parent@,
                                        slaves@,
                                        slave,
                                        master,
                                        None,
                                    );
                                }
                                parent.set(slave, master);
                                slaves.push((slave, master, None));
                            }
                        },
                        None => {},
                    }
                },
                _ => {},
            }
            proof {
                assert((parent@, slaves@) == merge_step(nodes, before, pair_views(pairs@)[m as int]));
            }
            m = m + 1;
        }
    }
    proof {
        assert((parent@, slaves@) == (if shortpipe_merge {
            merges_upto(nodes, pair_views(pairs@), pairs@.len())
        } else {
            merges_upto(nodes, pair_views(pairs@), 0)
        }));
    }
    let ghost merged = (parent@, slaves@);
    if hard_coupling {
        let mut k: usize = 0;
        while k < network.pipes.len()
            invariant
                nodes == network@.nodes,
                n == nodes.len(),
                ratio_ok@.len() == network@.pipes.len(),
                0 <= k <= network@.pipes.len(),
                (parent@, slaves@) == couplings_upto(nodes, network@.pipes, ratio_ok@, merged, k as nat),
                parents_in_range(parent@),
                parent@.len() == n,
                hard_coupling,
                plan_accounts_for_parents(network@.pipes, ratio_ok@, shortpipe_merge, hard_coupling, parent@, slaves@),
            decreases network@.pipes.len() - k,
        {
            let ghost before = (parent@, slaves@);
            let p = &network.pipes[k];
            if matches!(p.kind, ConnectionKind::CompressorStation) && p.hydraulically_active() {
                match (network.node_index(&p.to), network.node_index(&p.from)) {
                    (Some(outlet), Some(inlet)) => {
                        let inlet_c = parent[inlet];
                        let outlet_c = parent[outlet];
                        if outlet_c != inlet_c && parent[outlet_c] == outlet_c && ratio_ok[k] {
                            proof {
                                lemma_plan_record(
                                    network@.pipes,
                                    ratio_ok@,
                                    shortpipe_merge,
                                    hard_coupling,
                                    parent@,
                                    slaves@,
                                    outlet_c,
                                    inlet_c,
                                    Some(k),
                                );
                            }
                            parent.set(outlet_c, inlet_c);
                            slaves.push((outlet_c, inlet_c, Some(k)));
                        }
                    },
                    _ => {},
                }
            }
            proof {
                assert((parent@, slaves@) == coupling_step(nodes, network@.pipes, ratio_ok@, before, k as int));
            }
            k = k + 1;
        }
    }
    (parent, slaves)
}

/// `p` is a prefix of `s`.
pub open spec fn bytes_prefix(s: Seq<u8>, p: Seq<u8>) -> bool {
    p.len() <= s.len() && s.take(p.len() as int) == p
}

/// Whether the bytes of `s` start with those of `p`.
pub fn starts_with_bytes(s: &String, p: &str) -> (r: bool)
    ensures
        r == bytes_prefix(utf8_bytes(s@), utf8_bytes(p@)),
{
    let x = s.as_str().as_bytes();
    let y = p.as_bytes();
    proof {
        assert(x@ == utf8_bytes(s@));
        assert(y@ == utf8_bytes(p@));
    }
    if y.len() > x.len() {
        return false;
    }
    let mut i: usize = 0;
    while i < y.len()
        invariant
            x@ == utf8_bytes(s@),
            y@ == utf8_bytes(p@),
            y@.len() <= x@.len(),
            0 <= i <= y@.len(),
            forall|j: int| 0 <= j < i ==> x@[j] == y@[j],
        decreases y@.len() - i,
    {
        if x[i] != y[i] {
            proof {
                let t = x@.take(y@.len() as int);
                assert(t[i as int] == x@[i as int]);
                assert(t[i as int] != y@[i as int]);
                assert(t != y@);
                assert(!bytes_prefix(x@, y@));
            }
            return false;
        }
        i = i + 1;
    }
    proof {
        assert(x@.take(y@.len() as int) =~= y@);
    }
    true
}

/// A node whose nomination drift is reported: not pressure-fixed, not
/// excluded, and named `source_…` or `sink_…`.
pub open spec fn is_nomination_candidate(node: NodeModel, excluded: Seq<Seq<char>>) -> bool {
    &&& !node.has_fixed_pressure
    &&& !excluded.contains(node.id)
    &&& (bytes_prefix(utf8_bytes(node.id), utf8_bytes("source_"@)) || bytes_prefix(
        utf8_bytes(node.id),
        utf8_bytes("sink_"@),
    ))
}

/// Positions, in node order, of the boundary nodes whose nomination drift is
/// reported (the caller keeps those with a non-zero nomination).
pub fn nomination_candidates(network: &GasNetwork, excluded: &Vec<String>) -> (r: Vec<usize>)
    ensures
        forall|a: int, b: int| 0 <= a < b < r@.len() ==> r@[a] < r@[b],
        forall|i: usize|
            r@.contains(i) <==> (i < network@.nodes.len() && is_nomination_candidate(
                network@.nodes[i as int],
                string_views(excluded@),
            )),
{
    let mut out: Vec<usize> = Vec::new();
    let mut i: usize = 0;
    while i < network.nodes.len()
        invariant
            0 <= i <= network.nodes.len(),
            forall|a: int, b: int| 0 <= a < b < out@.len() ==> out@[a] < out@[b],
            forall|a: int| 0 <= a < out@.len() ==> out@[a] < i,
            forall|q: usize|
                out@.contains(q) <==> (q < i && is_nomination_candidate(
                    network@.nodes[q as int],
                    string_views(excluded@),
                )),
        decreases network.nodes.len() - i,
    {
        let nd = &network.nodes[i];
        let candidate = !nd.has_fixed_pressure && !contains_string(excluded, &nd.id) && (
        starts_with_bytes(&nd.id, "source_") || starts_with_bytes(&nd.id, "sink_"));
        if candidate {
            let ghost prev = out@;
            out.push(i);
            proof {
                assert forall|q: usize|
                    out@.contains(q) <==> (q < i + 1 && is_nomination_candidate(
                        network@.nodes[q as int],
                        string_views(excluded@),
                    )) by {
                    if q == i {
                        assert(out@[prev.len() as int] == i);
                    }
                    if prev.contains(q) {
                        let w = choose|w: int| 0 <= w < prev.len() && prev[w] == q;
                        assert(out@[w] == q);
                    }
                    if out@.contains(q) && q != i {
                        let w = choose|w: int| 0 <= w < out@.len() && out@[w] == q;
                        assert(w < prev.len());
                        assert(prev[w] == q);
                    }
                }
            }
        }
        i = i + 1;
    }
    out
}

/// Free pressure unknowns: the canonical nodes whose pressure is not fixed.
pub open spec fn is_free_node(fixed: Seq<bool>, resolve: Seq<usize>, i: int) -> bool {
    0 <= i < fixed.len() && !fixed[i] && resolve[i] as int == i
}

/// Lists the free unknowns in increasing node order and, for every node, its
/// position among them (`usize::MAX` for a node that is not free).
pub fn free_unknowns(fixed: &Vec<bool>, resolve: &Vec<usize>) -> (r: (Vec<usize>, Vec<usize>))
    requires
        fixed@.len() == resolve@.len(),
    ensures
        forall|a: int, b: int| 0 <= a < b < r.0@.len() ==> r.0@[a] < r.0@[b],
        forall|i: usize| r.0@.contains(i) <==> is_free_node(fixed@, resolve@, i as int),
        r.1@.len() == fixed@.len(),
        forall|k: int| 0 <= k < r.0@.len() ==> r.1@[r.0@[k] as int] == k,
        forall|i: int|
            0 <= i < fixed@.len() && !is_free_node(fixed@, resolve@, i) ==> r.1@[i] == usize::MAX,
{
    let n = fixed.len();
    let mut free: Vec<usize> = Vec::new();
    let mut pos: Vec<usize> = Vec::new();
    let mut i: usize = 0;
    while i < n
        invariant
            n == fixed@.len(),
            n == resolve@.len(),
            0 <= i <= n,
            pos@.len() == i,
            free@.len() <= i,
            forall|a: int, b: int| 0 <= a < b < free@.len() ==> free@[a] < free@[b],
            forall|a: int| 0 <= a < free@.len() ==> free@[a] < i,
            forall|q: usize| free@.contains(q) <==> (q < i && is_free_node(fixed@, resolve@, q as int)),
            forall|k: int| 0 <= k < free@.len() ==> pos@[free@[k] as int] == k,
            forall|q: int|
                0 <= q < i && !is_free_node(fixed@, resolve@, q) ==> pos@[q] == usize::MAX,
        decreases n - i,
    {
        if !fixed[i] && resolve[i] == i {
            let ghost prev = free@;
            pos.push(free.len());
            free.push(i);
            proof {
                assert forall|q: usize|
                    free@.contains(q) <==> (q < i + 1 && is_free_node(fixed@, resolve@, q as int)) by {
                    if q == i {
                        assert(free@[prev.len() as int] == q);
                    }
                    if prev.contains(q) {
                        let w = choose|w: int| 0 <= w < prev.len() && prev[w] == q;
                        assert(free@[w] == q);
                    }
                    if free@.contains(q) {
                        let w = choose|w: int| 0 <= w < free@.len() && free@[w] == q;
                        if w < prev.len() {
                            assert(prev.contains(q));
                        }
                    }
                }
            }
        } else {
            pos.push(usize::MAX);
            proof {
                assert forall|q: usize|
                    free@.contains(q) <==> (q < i + 1 && is_free_node(fixed@, resolve@, q as int)) by {
                    if free@.contains(q) {
                        let w = choose|w: int| 0 <= w < free@.len() && free@[w] == q;
                    }
                }
            }
        }
        i = i + 1;
    }
    (free, pos)
}

/// Position pairs `(row, col)` where the mass-balance Jacobian may be non-zero:
/// each active link contributes its free endpoints on the diagonal and, when
/// both endpoints are free, the two coupling entries.
pub open spec fn link_entry(
    links: Seq<(usize, usize)>,
    free_pos: Seq<usize>,
    k: int,
    row: usize,
    col: usize,
) -> bool {
    let a = free_pos[links[k].0 as int];
    let b = free_pos[links[k].1 as int];
    ||| (a != usize::MAX && row == a && col == a)
    ||| (b != usize::MAX && row == b && col == b)
    ||| (a != usize::MAX && b != usize::MAX && ((row == a && col == b) || (row == b && col == a)))
}

pub open spec fn in_jacobian_pattern(
    links: Seq<(usize, usize)>,
    free_pos: Seq<usize>,
    row: usize,
    col: usize,
) -> bool {
    exists|k: int|
        0 <= k < links.len() && #[trigger] link_entry(links, free_pos, k, row, col)
}

/// `x` is the unknown of a free end of link `k`.
pub open spec fn is_free_end(links: Seq<(usize, usize)>, free_pos: Seq<usize>, k: int, x: usize) -> bool {
    x != usize::MAX && (free_pos[links[k].0 as int] == x || free_pos[links[k].1 as int] == x)
}

/// Both `row` and `col` are unknowns of free ends of one link.
pub open spec fn share_a_link(links: Seq<(usize, usize)>, free_pos: Seq<usize>, row: usize, col: usize) -> bool {
    exists|k: int|
        0 <= k < links.len() && #[trigger] is_free_end(links, free_pos, k, row) && #[trigger] is_free_end(
            links,
            free_pos,
            k,
            col,
        )
}

/// The Jacobian pattern holds exactly the pairs of unknowns that are free ends
/// of a common link: every free end meets itself (the diagonal) and the other
/// free end of each of its links.
pub proof fn lemma_jacobian_pattern_is_free_end_pairs(
    links: Seq<(usize, usize)>,
    free_pos: Seq<usize>,
    row: usize,
    col: usize,
)
    ensures
        in_jacobian_pattern(links, free_pos, row, col) <==> share_a_link(links, free_pos, row, col),
{
    if in_jacobian_pattern(links, free_pos, row, col) {
        let k = choose|k: int| 0 <= k < links.len() && #[trigger] link_entry(links, free_pos, k, row, col);
        assert(is_free_end(links, free_pos, k, row) && is_free_end(links, free_pos, k, col));
    }
    if share_a_link(links, free_pos, row, col) {
        let k = choose|k: int|
            0 <= k < links.len() && #[trigger] is_free_end(links, free_pos, k, row)
                && #[trigger] is_free_end(links, free_pos, k, col);
        assert(link_entry(links, free_pos, k, row, col));
    }
}

/// Lexicographic order on position pairs.
pub open spec fn pair_lt(p: (usize, usize), q: (usize, usize)) -> bool {
    p.0 < q.0 || (p.0 == q.0 && p.1 < q.1)
}

fn insert_sorted_unique(v: &mut Vec<usize>, x: usize)
    requires
        forall|a: int, b: int| 0 <= a < b < old(v)@.len() ==> old(v)@[a] < old(v)@[b],
    ensures
        forall|a: int, b: int| 0 <= a < b < final(v)@.len() ==> final(v)@[a] < final(v)@[b],
        forall|y: usize| final(v)@.contains(y) <==> (old(v)@.contains(y) || y == x),
{
    let mut p: usize = 0;
    while p < v.len() && v[p] < x
        invariant
            0 <= p <= v@.len(),
            forall|a: int| 0 <= a < p ==> v@[a] < x,
        decreases v@.len() - p,
    {
        p = p + 1;
    }
    if p < v.len() && v[p] == x {
        proof {
            assert(v@[p as int] == x);
            assert(v@.contains(x));
            assert(v@ == old(v)@);
        }
        return;
    }
    let ghost prev = v@;
    assert(prev == old(v)@);
    v.insert(p, x);
    proof {
        assert forall|y: usize|
            #![trigger v@.contains(y)]
            #![trigger prev.contains(y)]
            v@.contains(y) <==> (prev.contains(y) || y == x) by {
            if y == x {
                assert(v@[p as int] == x);
            }
            if prev.contains(y) {
                let w = choose|w: int| 0 <= w < prev.len() && prev[w] == y;
                if w < p {
                    assert(v@[w] == y);
                } else {
                    assert(v@[w + 1] == y);
                }
            }
            if v@.contains(y) {
                let w = choose|w: int| 0 <= w < v@.len() && v@[w] == y;
                if w < p {
                    assert(prev[w] == y);
                } else if w > p {
                    assert(prev[w - 1] == y);
                }
            }
        }
        assert forall|y: usize| v@.contains(y) <==> (old(v)@.contains(y) || y == x) by {
            assert(prev.contains(y) == old(v)@.contains(y));
        }
        assert forall|a: int, b: int| 0 <= a < b < v@.len() implies v@[a] < v@[b] by {
            if b < p {
                assert(v@[a] == prev[a] && v@[b] == prev[b]);
            } else if b == p {
                assert(v@[a] == prev[a]);
            } else if a < p {
                assert(v@[a] == prev[a] && v@[b] == prev[b - 1]);
                if p < prev.len() {
                    assert(prev[p as int] > x || prev[p as int] == x);
                }
            } else if a == p {
                assert(v@[b] == prev[b - 1]);
                assert(prev[p as int] >= x);
                assert(prev[p as int] != x);
            } else {
                assert(v@[a] == prev[a - 1] && v@[b] == prev[b - 1]);
            }
        }
    }
}

/// The Jacobian sparsity pattern of the free unknowns, as strictly increasing
/// `(row, col)` pairs.
pub fn jacobian_sparsity(links: &Vec<(usize, usize)>, free_pos: &Vec<usize>, free_count: usize) -> (r:
    Vec<(usize, usize)>)
    requires
        forall|k: int|
            0 <= k < links@.len() ==> links@[k].0 < free_pos@.len() && links@[k].1 < free_pos@.len(),
        forall|i: int| 0 <= i < free_pos@.len() ==> free_pos@[i] == usize::MAX || free_pos@[i] < free_count,
    ensures
        forall|a: int, b: int| 0 <= a < b < r@.len() ==> pair_lt(r@[a], r@[b]),
        forall|row: usize, col: usize|
            r@.contains((row, col)) <==> in_jacobian_pattern(links@, free_pos@, row, col),
        forall|row: usize, col: usize|
            #[trigger] r@.contains((row, col)) <==> share_a_link(links@, free_pos@, row, col),
{
    let mut out: Vec<(usize, usize)> = Vec::new();
    let mut row: usize = 0;
    while row < free_count
        invariant
            0 <= row <= free_count,
            forall|k: int|
                0 <= k < links@.len() ==> links@[k].0 < free_pos@.len() && links@[k].1
                    < free_pos@.len(),
            forall|i: int|
                0 <= i < free_pos@.len() ==> free_pos@[i] == usize::MAX || free_pos@[i] < free_count,
            forall|a: int, b: int| 0 <= a < b < out@.len() ==> pair_lt(out@[a], out@[b]),
            forall|a: int| 0 <= a < out@.len() ==> out@[a].0 < row,
            forall|rr: usize, cc: usize|
                out@.contains((rr, cc)) <==> (rr < row && in_jacobian_pattern(links@, free_pos@, rr, cc)),
        decreases free_count - row,
    {
        let mut cols: Vec<usize> = Vec::new();
        let mut k: usize = 0;
        while k < links.len()
            invariant
                0 <= row < free_count,
                0 <= k <= links@.len(),
                forall|q: int|
                    0 <= q < links@.len() ==> links@[q].0 < free_pos@.len() && links@[q].1
                        < free_pos@.len(),
                forall|a: int, b: int| 0 <= a < b < cols@.len() ==> cols@[a] < cols@[b],
                forall|c: usize|
                    cols@.contains(c) <==> exists|q: int|
                        0 <= q < k && #[trigger] link_entry(links@, free_pos@, q, row, c),
            decreases links@.len() - k,
        {
            let a = free_pos[links[k].0];
            let b = free_pos[links[k].1];
            let ghost before = cols@;
            if a != usize::MAX && a == row {
                insert_sorted_unique(&mut cols, a);
            }
            let ghost mid1 = cols@;
            if b != usize::MAX && b == row {
                insert_sorted_unique(&mut cols, b);
            }
            let ghost mid2 = cols@;
            if a != usize::MAX && b != usize::MAX && a == row {
                insert_sorted_unique(&mut cols, b);
            }
            let ghost mid3 = cols@;
            if a != usize::MAX && b != usize::MAX && b == row {
                insert_sorted_unique(&mut cols, a);
            }
            proof {
                assert forall|c: usize|
                    cols@.contains(c) <==> exists|q: int|
                        0 <= q < k + 1 && #[trigger] link_entry(links@, free_pos@, q, row, c) by {
                    assert(cols@.contains(c) <==> (before.contains(c) || link_entry(
                        links@,
                        free_pos@,
                        k as int,
                        row,
                        c,
                    )));
                    if link_entry(links@, free_pos@, k as int, row, c) {
                        assert(0 <= k < k + 1);
                    }
                }
            }
            k = k + 1;
        }
        let mut w: usize = 0;
        let ghost base = out@;
        while w < cols.len()
            invariant
                0 <= row < free_count,
                0 <= w <= cols@.len(),
                forall|a: int, b: int| 0 <= a < b < cols@.len() ==> cols@[a] < cols@[b],
                forall|a: int, b: int| 0 <= a < b < base.len() ==> pair_lt(base[a], base[b]),
                forall|a: int| 0 <= a < base.len() ==> base[a].0 < row,
                out@ == base + Seq::new(w as nat, |t: int| (row, cols@[t])),
            decreases cols@.len() - w,
        {
            out.push((row, cols[w]));
            proof {
                assert(out@ =~= base + Seq::new((w + 1) as nat, |t: int| (row, cols@[t])));
            }
            w = w + 1;
        }
        proof {
            let added = Seq::new(cols@.len() as nat, |t: int| (row, cols@[t]));
            assert(out@ =~= base + added);
            assert forall|a: int, b: int| 0 <= a < b < out@.len() implies pair_lt(out@[a], out@[b]) by {
                if b >= base.len() && a < base.len() {
                    assert(out@[a] == base[a]);
                } else if a >= base.len() {
                    assert(out@[a] == added[a - base.len()]);
                    assert(out@[b] == added[b - base.len()]);
                }
            }
            assert forall|rr: usize, cc: usize|
                out@.contains((rr, cc)) <==> (rr < row + 1 && in_jacobian_pattern(
                    links@,
                    free_pos@,
                    rr,
                    cc,
                )) by {
                if out@.contains((rr, cc)) {
                    let z = choose|z: int| 0 <= z < out@.len() && out@[z] == (rr, cc);
                    if z < base.len() {
                        assert(base.contains((rr, cc)));
                    } else {
                        assert(added[z - base.len()] == (rr, cc));
                        assert(cols@.contains(cc));
                    }
                }
                if rr < row + 1 && in_jacobian_pattern(links@, free_pos@, rr, cc) {
                    if rr < row {
                        assert(base.contains((rr, cc)));
                        let z = choose|z: int| 0 <= z < base.len() && base[z] == (rr, cc);
                        assert(out@[z] == (rr, cc));
                    } else {
                        assert(cols@.contains(cc));
                        let z = choose|z: int| 0 <= z < cols@.len() && cols@[z] == cc;
                        assert(out@[base.len() + z] == (rr, cc));
                    }
                }
            }
        }
        row = row + 1;
    }
    proof {
        assert forall|rr: usize, cc: usize|
            in_jacobian_pattern(links@, free_pos@, rr, cc) implies rr < free_count by {
            let k = choose|k: int|
                0 <= k < links@.len() && #[trigger] link_entry(links@, free_pos@, k, rr, cc);
        }
    }
    proof {
        assert forall|row: usize, col: usize|
            #[trigger] out@.contains((row, col)) <==> share_a_link(links@, free_pos@, row, col) by {
            lemma_jacobian_pattern_is_free_end_pairs(links@, free_pos@, row, col);
        }
    }
    out
}

/// The Jacobian pattern is symmetric: `(row, col)` is in it exactly when
/// `(col, row)` is.
pub proof fn lemma_jacobian_pattern_symmetric(
    links: Seq<(usize, usize)>,
    free_pos: Seq<usize>,
    row: usize,
    col: usize,
)
    ensures
        in_jacobian_pattern(links, free_pos, row, col) <==> in_jacobian_pattern(
            links,
            free_pos,
            col,
            row,
        ),
{
    if in_jacobian_pattern(links, free_pos, row, col) {
        let k = choose|k: int|
            0 <= k < links.len() && #[trigger] link_entry(links, free_pos, k, row, col);
        assert(link_entry(links, free_pos, k, col, row));
    }
    if in_jacobian_pattern(links, free_pos, col, row) {
        let k = choose|k: int|
            0 <= k < links.len() && #[trigger] link_entry(links, free_pos, k, col, row);
        assert(link_entry(links, free_pos, k, row, col));
    }
}

/// Links that touch the regulated node `reg` at one end and a free unknown at
/// the other, in link order: the link's position, the free node, and whether
/// the link leaves `reg` (`true`) or enters it (`false`).
pub open spec fn regulator_incidents_of(
    links: Seq<(usize, usize)>,
    free_pos: Seq<usize>,
    reg: usize,
) -> Seq<(usize, usize, bool)>
    decreases links.len(),
{
    if links.len() == 0 {
        Seq::empty()
    } else {
        let rest = regulator_incidents_of(links.drop_last(), free_pos, reg);
        let k = (links.len() - 1) as usize;
        let (a, b) = links.last();
        if a == reg {
            if free_pos[b as int] != usize::MAX {
                rest.push((k, b, true))
            } else {
                rest
            }
        } else if b == reg {
            if free_pos[a as int] != usize::MAX {
                rest.push((k, a, false))
            } else {
                rest
            }
        } else {
            rest
        }
    }
}

/// The links through which a regulated node couples to the free unknowns, as
/// `regulator_incidents_of` lists them.
pub fn regulator_incidents(links: &Vec<(usize, usize)>, free_pos: &Vec<usize>, reg: usize) -> (r: Vec<
    (usize, usize, bool),
>)
    requires
        forall|k: int|
            0 <= k < links@.len() ==> links@[k].0 < free_pos@.len() && links@[k].1 < free_pos@.len(),
    ensures
        r@ == regulator_incidents_of(links@, free_pos@, reg),
{
    let mut out: Vec<(usize, usize, bool)> = Vec::new();
    let mut k: usize = 0;
    while k < links.len()
        invariant
            0 <= k <= links@.len(),
            forall|q: int|
                0 <= q < links@.len() ==> links@[q].0 < free_pos@.len() && links@[q].1 < free_pos@.len(),
            out@ == regulator_incidents_of(links@.take(k as int), free_pos@, reg),
        decreases links@.len() - k,
    {
        proof {
            assert(links@.take(k + 1).drop_last() =~= links@.take(k as int));
            assert(links@.take(k + 1).last() == links@[k as int]);
        }
        let (a, b) = links[k];
        if a == reg {
            if free_pos[b] != usize::MAX {
                out.push((k, b, true));
            }
        } else if b == reg {
            if free_pos[a] != usize::MAX {
                out.push((k, a, false));
            }
        }
        k = k + 1;
    }
    proof {
        assert(links@.take(links@.len() as int) =~= links@);
    }
    out
}

/// The free neighbours of a regulated node, in increasing order, each once: the
/// variables of its condensed residual row besides itself.
pub fn regulator_free_neighbours(incidents: &Vec<(usize, usize, bool)>) -> (r: Vec<usize>)
    ensures
        forall|a: int, b: int| 0 <= a < b < r@.len() ==> r@[a] < r@[b],
        forall|y: usize|
            r@.contains(y) <==> exists|i: int| 0 <= i < incidents@.len() && #[trigger] incidents@[i].1 == y,
{
    let mut out: Vec<usize> = Vec::new();
    let mut i: usize = 0;
    while i < incidents.len()
        invariant
            0 <= i <= incidents@.len(),
            forall|a: int, b: int| 0 <= a < b < out@.len() ==> out@[a] < out@[b],
            forall|y: usize|
                out@.contains(y) <==> exists|j: int| 0 <= j < i && #[trigger] incidents@[j].1 == y,
        decreases incidents@.len() - i,
    {
        insert_sorted_unique(&mut out, incidents[i].1);
        proof {
            assert forall|y: usize|
                out@.contains(y) implies exists|j: int| 0 <= j < i + 1 && #[trigger] incidents@[j].1 == y by {
                if y == incidents@[i as int].1 {
                    assert(0 <= i < i + 1);
                }
            }
        }
        i = i + 1;
    }
    out
}

/// Iterations of the linearised pre-solve that seeds Newton: the configured
/// override when there is one, else 4 above 2000 nodes, 12 above 150, none below.
pub fn physical_init_iters(node_count: usize, override_iters: Option<usize>) -> (r: usize)
    ensures
        r == match override_iters {
            Some(v) => v,
            None => if node_count > 2000 {
                4
            } else if node_count > 150 {
                12
            } else {
                0
            },
        },
{
    match override_iters {
        Some(v) => v,
        None => {
            if node_count > 2000 {
                4
            } else if node_count > 150 {
                12
            } else {
                0
            }
        },
    }
}

} // verus!
