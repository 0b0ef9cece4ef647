//! Topology model of a gas network: nodes, connections and their kinds.
//!
//! The model keeps what the topological logic of the simulator reads. Physical
//! quantities (lengths, diameters, pressures) stay with the numerical engine.

use vstd::prelude::*;

verus! {

/// Kind of a connection between two nodes.
#[derive(Clone, Copy, Debug, PartialEq, Eq, Structural)]
pub enum ConnectionKind {
    Pipe,
    Resistor,
    Valve,
    ShortPipe,
    CompressorStation,
    PressureRegulator,
    DeliveryStation,
    ControlValve,
}

/// Mathematical model of a node.
pub struct NodeModel {
    pub id: Seq<char>,
    pub has_fixed_pressure: bool,
}

/// Mathematical model of a connection.
pub struct PipeModel {
    pub id: Seq<char>,
    pub from: Seq<char>,
    pub to: Seq<char>,
    pub kind: ConnectionKind,
    pub is_open: bool,
    pub control_valve_shut: bool,
}

/// Mathematical model of a network.
pub struct NetworkModel {
    pub nodes: Seq<NodeModel>,
    pub pipes: Seq<PipeModel>,
}

/// A network node: its identifier and whether its pressure is imposed.
pub struct Node {
    pub id: String,
    pub has_fixed_pressure: bool,
}

/// A connection between two nodes.
///
/// `control_valve_shut` records that the opening of a control valve is at or
/// below 0 %.
pub struct Pipe {
    pub id: String,
    pub from: String,
    pub to: String,
    pub kind: ConnectionKind,
    pub is_open: bool,
    pub control_valve_shut: bool,
}

/// A gas network: nodes and connections, in insertion order.
pub struct GasNetwork {
    pub nodes: Vec<Node>,
    pub pipes: Vec<Pipe>,
}

impl View for Node {
    type V = NodeModel;

    open spec fn view(&self) -> NodeModel {
        NodeModel { id: self.id@, has_fixed_pressure: self.has_fixed_pressure }
    }
}

impl View for Pipe {
    type V = PipeModel;

    open spec fn view(&self) -> PipeModel {
        PipeModel {
            id: self.id@,
            from: self.from@,
            to: self.to@,
            kind: self.kind,
            is_open: self.is_open,
            control_valve_shut: self.control_valve_shut,
        }
    }
}

pub open spec fn node_models(nodes: Seq<Node>) -> Seq<NodeModel> {
    nodes.map_values(|n: Node| n@)
}

pub open spec fn pipe_models(pipes: Seq<Pipe>) -> Seq<PipeModel> {
    pipes.map_values(|p: Pipe| p@)
}

impl View for GasNetwork {
    type V = NetworkModel;

    open spec fn view(&self) -> NetworkModel {
        NetworkModel { nodes: node_models(self.nodes@), pipes: pipe_models(self.pipes@) }
    }
}

impl Clone for Node {
    fn clone(&self) -> (r: Self)
        ensures
            r == *self,
    {
        Node { id: self.id.clone(), has_fixed_pressure: self.has_fixed_pressure }
    }
}

impl Clone for Pipe {
    fn clone(&self) -> (r: Self)
        ensures
            r == *self,
    {
        Pipe {
            id: self.id.clone(),
            from: self.from.clone(),
            to: self.to.clone(),
            kind: self.kind,
            is_open: self.is_open,
            control_valve_shut: self.control_valve_shut,
        }
    }
}

impl Clone for GasNetwork {
    fn clone(&self) -> (r: Self)
        ensures
            r@ == self@,
    {
        let nodes = self.nodes.clone();
        let pipes = self.pipes.clone();
        proof {
            assert(nodes@ =~= self.nodes@);
            assert(pipes@ =~= self.pipes@);
        }
        GasNetwork { nodes, pipes }
    }
}


/// `i` is the position of the first node whose identifier is `id`.
pub open spec fn is_first_node_with_id(nodes: Seq<NodeModel>, id: Seq<char>, i: int) -> bool {
    &&& 0 <= i < nodes.len()
    &&& nodes[i].id == id
    &&& forall|j: int| 0 <= j < i ==> nodes[j].id != id
}

/// `i` is the position of the first connection whose identifier is `id`.
pub open spec fn is_first_pipe_with_id(pipes: Seq<PipeModel>, id: Seq<char>, i: int) -> bool {
    &&& 0 <= i < pipes.len()
    &&& pipes[i].id == id
    &&& forall|j: int| 0 <= j < i ==> pipes[j].id != id
}

/// `i` is the position of the last node whose identifier is `id`: where a
/// table from identifiers to positions, filled in node order, leads.
pub open spec fn is_last_node_with_id(nodes: Seq<NodeModel>, id: Seq<char>, i: int) -> bool {
    &&& 0 <= i < nodes.len()
    &&& nodes[i].id == id
    &&& forall|j: int| i < j < nodes.len() ==> nodes[j].id != id
}

/// The position an identifier-to-position table gives for `id` (meaningful
/// when some node has that identifier).
pub open spec fn node_slot(nodes: Seq<NodeModel>, id: Seq<char>) -> int {
    choose|i: int| is_last_node_with_id(nodes, id, i)
}

/// Two first positions of one identifier are the same position.
pub proof fn lemma_first_node_unique(nodes: Seq<NodeModel>, id: Seq<char>, i: int, j: int)
    requires
        is_first_node_with_id(nodes, id, i),
        is_first_node_with_id(nodes, id, j),
    ensures
        i == j,
{
}

/// Two last positions of one identifier are the same position.
pub proof fn lemma_last_node_unique(nodes: Seq<NodeModel>, id: Seq<char>, i: int, j: int)
    requires
        is_last_node_with_id(nodes, id, i),
        is_last_node_with_id(nodes, id, j),
    ensures
        i == j,
{
}

pub open spec fn has_node_id(nodes: Seq<NodeModel>, id: Seq<char>) -> bool {
    exists|i: int| 0 <= i < nodes.len() && nodes[i].id == id
}

pub open spec fn has_pipe_id(pipes: Seq<PipeModel>, id: Seq<char>) -> bool {
    exists|i: int| 0 <= i < pipes.len() && pipes[i].id == id
}

/// Node identifiers are pairwise distinct.
pub open spec fn distinct_node_ids(nodes: Seq<NodeModel>) -> bool {
    forall|i: int, j: int| 0 <= i < j < nodes.len() ==> nodes[i].id != nodes[j].id
}

/// Connection identifiers are pairwise distinct.
pub open spec fn distinct_pipe_ids(pipes: Seq<PipeModel>) -> bool {
    forall|i: int, j: int| 0 <= i < j < pipes.len() ==> pipes[i].id != pipes[j].id
}

/// A connection carries flow: it is open, and it is not a control valve shut at 0 %.
pub open spec fn hydraulically_active(p: PipeModel) -> bool {
    p.is_open && !(p.kind == ConnectionKind::ControlValve && p.control_valve_shut)
}

/// Identifiers of the nodes with an imposed pressure, in node order.
pub open spec fn fixed_pressure_ids(nodes: Seq<NodeModel>) -> Seq<Seq<char>>
    decreases nodes.len(),
{
    if nodes.len() == 0 {
        Seq::empty()
    } else {
        let rest = fixed_pressure_ids(nodes.drop_last());
        if nodes.last().has_fixed_pressure {
            rest.push(nodes.last().id)
        } else {
            rest
        }
    }
}


proof fn lemma_first_pipe_below(pipes: Seq<PipeModel>, id: Seq<char>, k: int)
    requires
        0 <= k < pipes.len(),
        pipes[k].id == id,
    ensures
        exists|i: int| is_first_pipe_with_id(pipes, id, i),
    decreases k,
{
    if exists|j: int| 0 <= j < k && pipes[j].id == id {
        let j = choose|j: int| 0 <= j < k && pipes[j].id == id;
        lemma_first_pipe_below(pipes, id, j);
    } else {
        assert(is_first_pipe_with_id(pipes, id, k));
    }
}

/// A connection identifier that occurs has a first occurrence.
pub proof fn lemma_first_pipe_exists(pipes: Seq<PipeModel>, id: Seq<char>)
    requires
        has_pipe_id(pipes, id),
    ensures
        exists|i: int| is_first_pipe_with_id(pipes, id, i),
{
    let k = choose|k: int| 0 <= k < pipes.len() && pipes[k].id == id;
    lemma_first_pipe_below(pipes, id, k);
}

proof fn lemma_first_node_below(nodes: Seq<NodeModel>, id: Seq<char>, k: int)
    requires
        0 <= k < nodes.len(),
        nodes[k].id == id,
    ensures
        exists|i: int| is_first_node_with_id(nodes, id, i),
    decreases k,
{
    if exists|j: int| 0 <= j < k && nodes[j].id == id {
        let j = choose|j: int| 0 <= j < k && nodes[j].id == id;
        lemma_first_node_below(nodes, id, j);
    } else {
        assert(is_first_node_with_id(nodes, id, k));
    }
}

/// A node identifier that occurs has a first occurrence.
pub proof fn lemma_first_node_exists(nodes: Seq<NodeModel>, id: Seq<char>)
    requires
        has_node_id(nodes, id),
    ensures
        exists|i: int| is_first_node_with_id(nodes, id, i),
{
    let k = choose|k: int| 0 <= k < nodes.len() && nodes[k].id == id;
    lemma_first_node_below(nodes, id, k);
}

pub open spec fn string_views(v: Seq<String>) -> Seq<Seq<char>> {
    v.map_values(|s: String| s@)
}

impl Pipe {
    /// Whether the connection carries flow.
    pub fn hydraulically_active(&self) -> (r: bool)
        ensures
            r == hydraulically_active(self@),
    {
        self.is_open && !(matches!(self.kind, ConnectionKind::ControlValve) && self.control_valve_shut)
    }
}

impl GasNetwork {
    /// Position of the first node whose identifier is `id`.
    pub fn node_position(&self, id: &String) -> (r: Option<usize>)
        ensures
            match r {
                Some(i) => is_first_node_with_id(self@.nodes, id@, i as int),
                None => !has_node_id(self@.nodes, id@),
            },
    {
        let mut i: usize = 0;
        while i < self.nodes.len()
            invariant
                0 <= i <= self.nodes.len(),
                forall|j: int| 0 <= j < i ==> self@.nodes[j].id != id@,
            decreases self.nodes.len() - i,
        {
            if self.nodes[i].id == *id {
                return Some(i);
            }
            i = i + 1;
        }
        None
    }

    /// Position of the last node whose identifier is `id`, as an
    /// identifier-to-position table filled in node order holds it.
    pub fn node_index(&self, id: &String) -> (r: Option<usize>)
        ensures
            match r {
                Some(i) => is_last_node_with_id(self@.nodes, id@, i as int) && i as int == node_slot(
                    self@.nodes,
                    id@,
                ),
                None => !has_node_id(self@.nodes, id@),
            },
    {
        let mut i: usize = self.nodes.len();
        while i > 0
            invariant
                0 <= i <= self.nodes.len(),
                forall|j: int| i <= j < self.nodes.len() ==> self@.nodes[j].id != id@,
            decreases i,
        {
            i = i - 1;
            if self.nodes[i].id == *id {
                proof {
                    let k = node_slot(self@.nodes, id@);
                    assert(is_last_node_with_id(self@.nodes, id@, i as int));
                    lemma_last_node_unique(self@.nodes, id@, k, i as int);
                }
                return Some(i);
            }
        }
        None
    }

    /// Position of the first connection whose identifier is `id`.
    pub fn pipe_position(&self, id: &String) -> (r: Option<usize>)
        ensures
            match r {
                Some(i) => is_first_pipe_with_id(self@.pipes, id@, i as int),
                None => !has_pipe_id(self@.pipes, id@),
            },
    {
        let mut i: usize = 0;
        while i < self.pipes.len()
            invariant
                0 <= i <= self.pipes.len(),
                forall|j: int| 0 <= j < i ==> self@.pipes[j].id != id@,
            decreases self.pipes.len() - i,
        {
            if self.pipes[i].id == *id {
                return Some(i);
            }
            i = i + 1;
        }
        None
    }
}

/// Whether `s` occurs in `v`.
pub fn contains_string(v: &Vec<String>, s: &String) -> (r: bool)
    ensures
        r == string_views(v@).contains(s@),
{
    let mut i: usize = 0;
    while i < v.len()
        invariant
            0 <= i <= v.len(),
            forall|j: int| 0 <= j < i ==> v@[j]@ != s@,
        decreases v.len() - i,
    {
        if v[i] == *s {
            proof {
                assert(string_views(v@)[i as int] == s@);
            }
            return true;
        }
        i = i + 1;
    }
    proof {
        if string_views(v@).contains(s@) {
            let j = choose|j: int| 0 <= j < v@.len() && string_views(v@)[j] == s@;
            assert(v@[j]@ == s@);
        }
    }
    false
}

/// Whether some connection of the network has identifier `pipe_id`.
pub fn has_pipe(network: &GasNetwork, pipe_id: &String) -> (r: bool)
    ensures
        r == has_pipe_id(network@.pipes, pipe_id@),
{
    network.pipe_position(pipe_id).is_some()
}

/// Identifiers of the nodes whose pressure is imposed, in node order.
pub fn fixed_pressure_node_set(network: &GasNetwork) -> (r: Vec<String>)
    ensures
        string_views(r@) == fixed_pressure_ids(network@.nodes),
{
    let mut out: Vec<String> = Vec::new();
    let mut i: usize = 0;
    while i < network.nodes.len()
        invariant
            0 <= i <= network.nodes.len(),
            string_views(out@) == fixed_pressure_ids(network@.nodes.take(i as int)),
        decreases network.nodes.len() - i,
    {
        proof {
            assert(network@.nodes.take(i + 1).drop_last() =~= network@.nodes.take(i as int));
        }
        if network.nodes[i].has_fixed_pressure {
            let ghost prev = out@;
            out.push(network.nodes[i].id.clone());
            proof {
                assert(string_views(out@) =~= string_views(prev).push(network@.nodes[i as int].id));
            }
        }
        i = i + 1;
    }
    proof {
        assert(network@.nodes.take(network.nodes.len() as int) =~= network@.nodes);
    }
    out
}

} // verus!
