//! The intermediate representation of a circuit library.
use vstd::prelude::*;

verus! {

/// What a node within a gate is.
#[derive(Debug)]
pub enum Type {
    /// An input port: part of the public interface of its gate.
    Input,
    /// The output port: part of the public interface of its gate.
    Output,
    /// An instance of another gate type, named here, wired inside its gate.
    Internal(String),
}

/// A node within a gate, named uniquely within it.
#[derive(Debug)]
pub struct Node {
    pub type_: Type,
    pub name: String,
}

/// A wire from the signal of node `source` to the port `sink.1` of node `sink.0`.
#[derive(Debug)]
pub struct Edge {
    pub source: String,
    pub sink: (String, String),
}

/// The definition of a gate type.
#[derive(Debug)]
pub struct Gate {
    /// The declared input ports; their order fixes the bit of each in an enumeration.
    pub inputs: Vec<String>,
    pub nodes: Vec<Node>,
    pub edges: Vec<Edge>,
}

/// The registry of gate types by name. `"nand"` is built in and never registered.
#[derive(Debug)]
pub struct Graph {
    pub gates: Vec<(String, Gate)>,
}

/// Why an analysis could not be carried out.
#[derive(Debug, Clone, PartialEq, Eq)]
pub enum AnalysisError {
    /// A gate type that is neither `"nand"` nor registered.
    UnknownGate(String),
    /// An edge whose sink names no node of its gate.
    DanglingEdge(String),
    /// An edge that ends at an input node.
    WireIntoInput(String),
    /// A gate type that contains itself, directly or through other gate types.
    RecursiveGateType(String),
    /// A gate with too many inputs to enumerate.
    TooManyInputs(String),
}

/// An analysis error as seen by contracts.
pub enum ErrorView {
    UnknownGate(Seq<char>),
    DanglingEdge(Seq<char>),
    WireIntoInput(Seq<char>),
    RecursiveGateType(Seq<char>),
    TooManyInputs(Seq<char>),
}

impl View for AnalysisError {
    type V = ErrorView;

    open spec fn view(&self) -> ErrorView {
        match self {
            AnalysisError::UnknownGate(n) => ErrorView::UnknownGate(n@),
            AnalysisError::DanglingEdge(n) => ErrorView::DanglingEdge(n@),
            AnalysisError::WireIntoInput(n) => ErrorView::WireIntoInput(n@),
            AnalysisError::RecursiveGateType(n) => ErrorView::RecursiveGateType(n@),
            AnalysisError::TooManyInputs(n) => ErrorView::TooManyInputs(n@),
        }
    }
}

/// An assignment of values to named ports, as seen by contracts.
pub type Assign = Seq<(Seq<char>, bool)>;

pub open spec fn assign_view(a: Seq<(String, bool)>) -> Assign {
    a.map_values(|e: (String, bool)| (e.0@, e.1))
}

/// The value of port `p` in `a`; a later entry overrides an earlier one.
pub open spec fn lookup(a: Assign, p: Seq<char>) -> Option<bool>
    decreases a.len(),
{
    if a.len() == 0 {
        None
    } else if a.last().0 == p {
        Some(a.last().1)
    } else {
        lookup(a.drop_last(), p)
    }
}

pub open spec fn nand_name() -> Seq<char> {
    seq!['n', 'a', 'n', 'd']
}

/// The index of the last registered gate named `name`, or -1; in a registry
/// with unique names, that of the one gate of that name.
pub open spec fn gate_index(gates: Seq<(String, Gate)>, name: Seq<char>) -> int
    decreases gates.len(),
{
    if gates.len() == 0 {
        -1
    } else if gates.last().0@ == name {
        gates.len() - 1
    } else {
        gate_index(gates.drop_last(), name)
    }
}

/// The index of the last node of `nodes` named `name`, or -1; in a gate with
/// unique node names, that of the one node of that name.
pub open spec fn node_index(nodes: Seq<Node>, name: Seq<char>) -> int
    decreases nodes.len(),
{
    if nodes.len() == 0 {
        -1
    } else if nodes.last().name@ == name {
        nodes.len() - 1
    } else {
        node_index(nodes.drop_last(), name)
    }
}

pub proof fn lemma_gate_index_bounds(gates: Seq<(String, Gate)>, name: Seq<char>)
    ensures
        -1 <= gate_index(gates, name) < gates.len(),
        gate_index(gates, name) >= 0 ==> gates[gate_index(gates, name)].0@ == name,
    decreases gates.len(),
{
    if gates.len() > 0 {
        lemma_gate_index_bounds(gates.drop_last(), name);
    }
}

pub proof fn lemma_node_index_bounds(nodes: Seq<Node>, name: Seq<char>)
    ensures
        -1 <= node_index(nodes, name) < nodes.len(),
        node_index(nodes, name) >= 0 ==> nodes[node_index(nodes, name)].name@ == name,
    decreases nodes.len(),
{
    if nodes.len() > 0 {
        lemma_node_index_bounds(nodes.drop_last(), name);
    }
}

/// Whether the nodes of a gate have pairwise distinct names, as a well-formed
/// gate's do.
pub open spec fn node_names_unique(nodes: Seq<Node>) -> bool {
    forall|i: int, j: int| 0 <= i < j < nodes.len() ==> (#[trigger] nodes[i]).name@ != (#[trigger] nodes[j]).name@
}

/// Whether the gates of a registry have pairwise distinct names, as a
/// well-formed registry's do.
pub open spec fn gate_names_unique(gates: Seq<(String, Gate)>) -> bool {
    forall|i: int, j: int| 0 <= i < j < gates.len() ==> (#[trigger] gates[i]).0@ != (#[trigger] gates[j]).0@
}

/// Where node names are unique, `node_index` finds the one node of a name.
pub proof fn lemma_node_index_unique(nodes: Seq<Node>, i: int)
    requires
        node_names_unique(nodes),
        0 <= i < nodes.len(),
    ensures
        node_index(nodes, nodes[i].name@) == i,
    decreases nodes.len(),
{
    if i < nodes.len() - 1 {
        assert(nodes[i].name@ != nodes[nodes.len() - 1].name@);
        assert(nodes.drop_last()[i] == nodes[i]);
        lemma_node_index_unique(nodes.drop_last(), i);
    }
}

/// Where gate names are unique, `gate_index` finds the one gate of a name.
pub proof fn lemma_gate_index_unique(gates: Seq<(String, Gate)>, i: int)
    requires
        gate_names_unique(gates),
        0 <= i < gates.len(),
    ensures
        gate_index(gates, gates[i].0@) == i,
    decreases gates.len(),
{
    if i < gates.len() - 1 {
        assert(gates[i].0@ != gates[gates.len() - 1].0@);
        assert(gates.drop_last()[i] == gates[i]);
        lemma_gate_index_unique(gates.drop_last(), i);
    }
}

/// Whether `name` is the built-in NAND primitive.
pub fn is_nand(name: &String) -> (r: bool)
    ensures
        r == (name@ == nand_name()),
{
    let n = "nand".to_owned();
    proof {
        reveal_strlit("nand");
    }
    assert(n@ =~= nand_name());
    *name == n
}

/// Finds the registered gate named `name` (the last one, if there are several).
pub fn find_gate(graph: &Graph, name: &String) -> (r: Option<usize>)
    ensures
        r.is_none() ==> gate_index(graph.gates@, name@) == -1,
        r.is_some() ==> r.unwrap() as int == gate_index(graph.gates@, name@),
        r.is_some() ==> r.unwrap() < graph.gates@.len(),
{
    let mut found: Option<usize> = None;
    let mut i: usize = 0;
    while i < graph.gates.len()
        invariant
            0 <= i <= graph.gates@.len(),
            found.is_none() ==> gate_index(graph.gates@.subrange(0, i as int), name@) == -1,
            found.is_some() ==> found.unwrap() as int == gate_index(
                graph.gates@.subrange(0, i as int),
                name@,
            ),
            found.is_some() ==> found.unwrap() < i,
        decreases graph.gates@.len() - i,
    {
        let ghost prefix = graph.gates@.subrange(0, i as int + 1);
        assert(prefix.drop_last() =~= graph.gates@.subrange(0, i as int));
        if graph.gates[i].0 == *name {
            found = Some(i);
        }
        i = i + 1;
    }
    assert(graph.gates@.subrange(0, i as int) =~= graph.gates@);
    found
}

/// Finds the node named `name` in `nodes` (the last one, if there are several).
pub fn find_node(nodes: &Vec<Node>, name: &String) -> (r: Option<usize>)
    ensures
        r.is_none() ==> node_index(nodes@, name@) == -1,
        r.is_some() ==> r.unwrap() as int == node_index(nodes@, name@),
        r.is_some() ==> r.unwrap() < nodes@.len(),
{
    let mut found: Option<usize> = None;
    let mut i: usize = 0;
    while i < nodes.len()
        invariant
            0 <= i <= nodes@.len(),
            found.is_none() ==> node_index(nodes@.subrange(0, i as int), name@) == -1,
            found.is_some() ==> found.unwrap() as int == node_index(
                nodes@.subrange(0, i as int),
                name@,
            ),
            found.is_some() ==> found.unwrap() < i,
        decreases nodes@.len() - i,
    {
        let ghost prefix = nodes@.subrange(0, i as int + 1);
        assert(prefix.drop_last() =~= nodes@.subrange(0, i as int));
        if nodes[i].name == *name {
            found = Some(i);
        }
        i = i + 1;
    }
    assert(nodes@.subrange(0, i as int) =~= nodes@);
    found
}

/// The value of port `p` in the assignment `a`.
pub fn lookup_port(a: &Vec<(String, bool)>, p: &String) -> (r: Option<bool>)
    ensures
        r == lookup(assign_view(a@), p@),
{
    let ghost av = assign_view(a@);
    let mut res: Option<bool> = None;
    let mut i: usize = 0;
    while i < a.len()
        invariant
            0 <= i <= a@.len(),
            av == assign_view(a@),
            res == lookup(av.subrange(0, i as int), p@),
        decreases a@.len() - i,
    {
        assert(av.subrange(0, i as int + 1).drop_last() =~= av.subrange(0, i as int));
        if a[i].0 == *p {
            res = Some(a[i].1);
        }
        i = i + 1;
    }
    assert(av.subrange(0, i as int) =~= av);
    res
}

} // verus!
