//! Detection of combinational loops in a gate's wiring, by a three-colour
//! depth-first search from its inputs.
use vstd::prelude::*;
use crate::ir::{AnalysisError, ErrorView, Gate, Graph, Type, find_gate, find_node, gate_index, is_nand, lemma_node_index_bounds, nand_name, node_index};
use crate::propagate::{count_false, lemma_count_false_set};

verus! {

/// Whether every wire that leaves a node marked in `seen` leads to a node
/// marked in `seen` of a smaller rank.
pub open spec fn ranked(gate: Gate, seen: Seq<bool>, rank: Seq<usize>) -> bool {
    forall|u: int, e: int|
        #![trigger seen[u], gate.edges@[e]]
        0 <= u < gate.nodes@.len() && seen[u] && 0 <= e < gate.edges@.len() && gate.edges@[e].source@
            == gate.nodes@[u].name@ ==> {
            let v = node_index(gate.nodes@, gate.edges@[e].sink.0@);
            0 <= v < gate.nodes@.len() && seen[v] && rank[v] < rank[u]
        }
}

/// Whether every declared input of `gate` that names a node is marked in `seen`.
pub open spec fn inputs_covered(gate: Gate, seen: Seq<bool>) -> bool {
    forall|k: int|
        0 <= k < gate.inputs@.len() && node_index(gate.nodes@, (#[trigger] gate.inputs@[k])@) >= 0
            ==> seen[node_index(gate.nodes@, gate.inputs@[k]@)]
}

/// Whether the wiring reachable from the declared inputs of `gate` is acyclic:
/// some set of nodes holds every input and everything its wires lead to, and
/// ranks them so that every wire leads to a smaller rank.
pub open spec fn acyclic_from_inputs(gate: Gate) -> bool {
    exists|seen: Seq<bool>, rank: Seq<usize>|
        #![trigger ranked(gate, seen, rank)]
        seen.len() == gate.nodes@.len() && rank.len() == gate.nodes@.len() && ranked(gate, seen, rank)
            && inputs_covered(gate, seen)
}

/// Whether some wire of `gate` leads from node `u` to node `v`.
pub open spec fn wired(gate: Gate, u: int, v: int) -> bool {
    exists|e: int|
        0 <= e < gate.edges@.len() && (#[trigger] gate.edges@[e]).source@ == gate.nodes@[u].name@
            && node_index(gate.nodes@, gate.edges@[e].sink.0@) == v
}

/// Whether `p` is a sequence of nodes of `gate`, each wired to the next.
pub open spec fn is_path(gate: Gate, p: Seq<int>) -> bool {
    &&& forall|i: int| 0 <= i < p.len() ==> 0 <= #[trigger] p[i] < gate.nodes@.len()
    &&& forall|i: int| 0 <= i < p.len() - 1 ==> wired(gate, #[trigger] p[i], p[i + 1])
}

/// Whether a path from the node of a declared input of `gate` reaches a loop:
/// `path` leads from that node to the first node of `cycle`, whose nodes are
/// wired in turn, the last back to the first.
pub open spec fn loop_at(gate: Gate, k: int, path: Seq<int>, cycle: Seq<int>) -> bool {
    &&& 0 <= k < gate.inputs@.len()
    &&& path.len() >= 1
    &&& path[0] == node_index(gate.nodes@, gate.inputs@[k]@)
    &&& is_path(gate, path)
    &&& cycle.len() >= 1
    &&& is_path(gate, cycle)
    &&& cycle[0] == path.last()
    &&& wired(gate, cycle.last(), cycle[0])
}

/// Whether the wiring of `gate` holds a loop that a declared input reaches.
pub open spec fn has_reachable_loop(gate: Gate) -> bool {
    exists|k: int, path: Seq<int>, cycle: Seq<int>| #[trigger] loop_at(gate, k, path, cycle)
}

/// Whether every edge of `gate` leads to a node of `gate`.
pub open spec fn edges_resolve(gate: Gate) -> bool {
    forall|e: int| 0 <= e < gate.edges@.len() ==> node_index(gate.nodes@, (#[trigger] gate.edges@[e]).sink.0@) >= 0
}

/// The name of the missing node that the first of the first `e` edges of
/// `gate` leading to no node names, if any.
pub open spec fn first_dangling(gate: Gate, e: nat) -> Option<Seq<char>>
    decreases e,
{
    if e == 0 {
        None
    } else {
        match first_dangling(gate, (e - 1) as nat) {
            Some(n) => Some(n),
            None => if node_index(gate.nodes@, gate.edges@[e - 1].sink.0@) < 0 {
                Some(gate.edges@[e - 1].sink.0@)
            } else {
                None
            },
        }
    }
}

/// The outcome for the wiring of `gate` and, through `graph`, for the types it
/// instantiates: an edge into no node is an error; else a loop reachable from
/// the inputs gives `false`; else each instance of a type other than `"nand"`,
/// in order, must be of a registered type, not one being checked already
/// (marked in `expanding`), whose own result is `true`. `fuel` bounds the
/// depth of the nesting of types, and is the number of unmarked types.
pub open spec fn type_check(graph: Graph, gate: Gate, expanding: Seq<bool>, fuel: nat) -> Result<bool, ErrorView>
    decreases fuel, gate.nodes@.len() + 1,
{
    match first_dangling(gate, gate.edges@.len() as nat) {
        Some(n) => Err(ErrorView::DanglingEdge(n)),
        None => if !acyclic_from_inputs(gate) {
            Ok(false)
        } else {
            subs_check(graph, gate, expanding, fuel, 0)
        },
    }
}

/// The result of checking the sub-gate instances of `gate` from node `i` on.
pub open spec fn subs_check(graph: Graph, gate: Gate, expanding: Seq<bool>, fuel: nat, i: nat) -> Result<
    bool,
    ErrorView,
>
    decreases fuel, gate.nodes@.len() - i,
{
    if i >= gate.nodes@.len() {
        Ok(true)
    } else {
        match gate.nodes@[i as int].type_ {
            Type::Internal(sub) => if sub@ == nand_name() {
                subs_check(graph, gate, expanding, fuel, i + 1)
            } else {
                let gi = gate_index(graph.gates@, sub@);
                if gi < 0 {
                    Err(ErrorView::UnknownGate(sub@))
                } else if expanding[gi] || fuel == 0 {
                    Err(ErrorView::RecursiveGateType(sub@))
                } else {
                    match type_check(graph, graph.gates@[gi].1, expanding.update(gi, true), (fuel - 1) as nat) {
                        Ok(true) => subs_check(graph, gate, expanding, fuel, i + 1),
                        other => other,
                    }
                }
            },
            _ => subs_check(graph, gate, expanding, fuel, i + 1),
        }
    }
}

pub open spec fn check_view(r: Result<bool, AnalysisError>) -> Result<bool, ErrorView> {
    match r {
        Ok(b) => Ok(b),
        Err(e) => Err(e@),
    }
}

/// Finds the first edge of `gate` that leads to no node, and names its sink.
fn find_dangling(gate: &Gate) -> (r: Option<String>)
    ensures
        match r {
            Some(n) => first_dangling(*gate, gate.edges@.len() as nat) == Some(n@),
            None => first_dangling(*gate, gate.edges@.len() as nat) is None && edges_resolve(*gate),
        },
{
    let mut e: usize = 0;
    while e < gate.edges.len()
        invariant
            0 <= e <= gate.edges@.len(),
            first_dangling(*gate, e as nat) is None,
            forall|f: int| 0 <= f < e ==> node_index(gate.nodes@, (#[trigger] gate.edges@[f]).sink.0@) >= 0,
        decreases gate.edges@.len() - e,
    {
        if find_node(&gate.nodes, &gate.edges[e].sink.0).is_none() {
            let n = gate.edges[e].sink.0.clone();
            proof {
                lemma_dangling_persists(*gate, (e + 1) as nat, gate.edges@.len() as nat);
            }
            return Some(n);
        }
        e = e + 1;
    }
    None
}

proof fn lemma_dangling_persists(gate: Gate, e1: nat, e2: nat)
    requires
        e1 <= e2,
        first_dangling(gate, e1) is Some,
    ensures
        first_dangling(gate, e2) == first_dangling(gate, e1),
    decreases e2,
{
    if e1 < e2 {
        lemma_dangling_persists(gate, e1, (e2 - 1) as nat);
    }
}

proof fn lemma_back_edge_closes_loop(gate: Gate, path: Seq<int>, next: int)
    requires
        exists|k: int| 0 <= k < gate.inputs@.len() && path[0] == node_index(gate.nodes@, #[trigger] gate.inputs@[k]@),
        path.len() >= 1,
        is_path(gate, path),
        path.contains(next),
        wired(gate, path.last(), next),
    ensures
        has_reachable_loop(gate),
{
    let k = choose|k: int| 0 <= k < gate.inputs@.len() && path[0] == node_index(gate.nodes@, #[trigger] gate.inputs@[k]@);
    let j = choose|j: int| 0 <= j < path.len() && path[j] == next;
    let head = path.subrange(0, j + 1);
    let cycle = path.subrange(j, path.len() as int);
    assert(is_path(gate, head)) by {
        assert forall|i: int| 0 <= i < head.len() - 1 implies wired(gate, #[trigger] head[i], head[i + 1]) by {
            assert(wired(gate, path[i], path[i + 1]));
        }
    }
    assert(is_path(gate, cycle)) by {
        assert forall|i: int| 0 <= i < cycle.len() - 1 implies wired(gate, #[trigger] cycle[i], cycle[i + 1]) by {
            assert(wired(gate, path[j + i], path[j + i + 1]));
        }
    }
    assert(loop_at(gate, k, head, cycle));
}

/// Explores the wiring from node `node`, which is neither explored nor on the
/// current path. `Ok(false)` when a node on the current path (marked in
/// `grey`) is reached again. A node fully explored is marked in `seen`, is not
/// explored again, and gets the next rank from `clock`: the order in which the
/// search leaves the nodes.
fn visit(
    gate: &Gate,
    seen: &mut Vec<bool>,
    grey: &mut Vec<bool>,
    rank: &mut Vec<usize>,
    clock: &mut usize,
    node: usize,
    path: Ghost<Seq<int>>,
) -> (r: Result<bool, AnalysisError>)
    requires
        old(seen)@.len() == gate.nodes@.len(),
        old(grey)@.len() == gate.nodes@.len(),
        old(rank)@.len() == gate.nodes@.len(),
        node < gate.nodes@.len(),
        !old(grey)@[node as int],
        !old(seen)@[node as int],
        ranked(*gate, old(seen)@, old(rank)@),
        forall|u: int| 0 <= u < gate.nodes@.len() && old(seen)@[u] ==> old(rank)@[u] < *old(clock),
        *old(clock) + count_false(old(seen)@) == gate.nodes@.len(),
        forall|i: int| 0 <= i < gate.nodes@.len() ==> !(old(seen)@[i] && old(grey)@[i]),
        exists|k: int| 0 <= k < gate.inputs@.len() && path@[0] == node_index(gate.nodes@, #[trigger] gate.inputs@[k]@),
        path@.len() >= 1,
        is_path(*gate, path@),
        path@.last() == node as int,
        forall|i: int| 0 <= i < gate.nodes@.len() && old(grey)@[i] ==> path@.contains(i),
        edges_resolve(*gate),
    ensures
        r is Ok,
        r == Ok::<bool, AnalysisError>(false) ==> has_reachable_loop(*gate),
        final(seen)@.len() == gate.nodes@.len(),
        final(grey)@.len() == gate.nodes@.len(),
        final(rank)@.len() == gate.nodes@.len(),
        r == Ok::<bool, AnalysisError>(true) ==> {
            &&& final(grey)@ == old(grey)@
            &&& final(seen)@[node as int]
            &&& forall|i: int| 0 <= i < gate.nodes@.len() && old(seen)@[i] ==> final(seen)@[i] && final(rank)@[i] == old(rank)@[i]
            &&& ranked(*gate, final(seen)@, final(rank)@)
            &&& forall|u: int| 0 <= u < gate.nodes@.len() && final(seen)@[u] ==> final(rank)@[u] < *final(clock)
            &&& *final(clock) + count_false(final(seen)@) == gate.nodes@.len()
            &&& forall|i: int| 0 <= i < gate.nodes@.len() ==> !(final(seen)@[i] && final(grey)@[i])
        },
    decreases count_false(old(grey)@),
{
    let ghost entry_grey = grey@;
    let ghost entry_seen = seen@;
    let ghost entry_rank = rank@;
    let ghost n = gate.nodes@.len();
    grey.set(node, true);
    proof {
        lemma_count_false_set(entry_grey, node as int);
    }
    let mut e: usize = 0;
    while e < gate.edges.len()
        invariant
            0 <= e <= gate.edges@.len(),
            node < n,
            n == gate.nodes@.len(),
            seen@.len() == n,
            rank@.len() == n,
            grey@ == entry_grey.update(node as int, true),
            entry_grey == old(grey)@,
            entry_seen == old(seen)@,
            entry_rank == old(rank)@,
            entry_grey.len() == n,
            count_false(grey@) < count_false(entry_grey),
            !seen@[node as int],
            forall|i: int| 0 <= i < n && entry_seen[i] ==> seen@[i] && rank@[i] == entry_rank[i],
            ranked(*gate, seen@, rank@),
            forall|u: int| 0 <= u < n && seen@[u] ==> rank@[u] < *clock,
            *clock + count_false(seen@) == n,
            forall|i: int| 0 <= i < n ==> !(seen@[i] && grey@[i]),
            exists|k: int| 0 <= k < gate.inputs@.len() && path@[0] == node_index(gate.nodes@, #[trigger] gate.inputs@[k]@),
            path@.len() >= 1,
            is_path(*gate, path@),
            path@.last() == node as int,
            forall|i: int| 0 <= i < n && grey@[i] ==> path@.contains(i),
            edges_resolve(*gate),
            forall|f: int|
                0 <= f < e && (#[trigger] gate.edges@[f]).source@ == gate.nodes@[node as int].name@ ==> {
                    let v = node_index(gate.nodes@, gate.edges@[f].sink.0@);
                    0 <= v < n && seen@[v]
                },
        decreases gate.edges@.len() - e,
    {
        let edge = &gate.edges[e];
        if edge.source == gate.nodes[node].name {
            match find_node(&gate.nodes, &edge.sink.0) {
                None => {
                    proof {
                        assert(node_index(gate.nodes@, gate.edges@[e as int].sink.0@) >= 0);
                    }
                    return Err(AnalysisError::DanglingEdge(edge.sink.0.clone()));
                },
                Some(next) => {
                    if !seen[next] {
                        proof {
                            lemma_node_index_bounds(gate.nodes@, edge.sink.0@);
                            assert(wired(*gate, node as int, next as int)) by {
                                assert(gate.edges@[e as int].source@ == gate.nodes@[node as int].name@);
                            }
                        }
                        if grey[next] {
                            proof {
                                lemma_back_edge_closes_loop(*gate, path@, next as int);
                            }
                            return Ok(false);
                        }
                        let ghost before_seen = seen@;
                        let ghost longer = path@.push(next as int);
                        proof {
                            assert(is_path(*gate, longer)) by {
                                assert forall|i: int| 0 <= i < longer.len() - 1 implies wired(*gate, #[trigger] longer[i], longer[i + 1]) by {
                                    if i < path@.len() - 1 {
                                        assert(wired(*gate, path@[i], path@[i + 1]));
                                    }
                                }
                            }
                            assert forall|i: int| 0 <= i < n && grey@[i] implies longer.contains(i) by {
                                assert(path@.contains(i));
                                let j = choose|j: int| 0 <= j < path@.len() && path@[j] == i;
                                assert(longer[j] == path@[j]);
                                assert(longer.contains(i));
                            }
                            assert(longer[0] == path@[0]);
                        }
                        match visit(gate, seen, grey, rank, clock, next, Ghost(longer)) {
                            Ok(true) => {},
                            other => {
                                return other;
                            },
                        }
                        assert forall|f: int|
                            0 <= f < e && (#[trigger] gate.edges@[f]).source@ == gate.nodes@[node as int].name@ implies {
                                let v = node_index(gate.nodes@, gate.edges@[f].sink.0@);
                                0 <= v < n && seen@[v]
                            } by {
                            let v = node_index(gate.nodes@, gate.edges@[f].sink.0@);
                            assert(before_seen[v]);
                        }
                    }
                },
            }
        }
        e = e + 1;
    }
    let ghost seen_before = seen@;
    let ghost rank_before = rank@;
    let ghost clock_before = *clock;
    proof {
        lemma_count_false_set(seen@, node as int);
    }
    grey.set(node, false);
    assert(grey@ =~= entry_grey);
    seen.set(node, true);
    rank.set(node, *clock);
    let total = gate.nodes.len();
    assert(*clock < total);
    *clock = *clock + 1;
    assert forall|u: int, f: int|
        #![trigger seen@[u], gate.edges@[f]]
        0 <= u < n && seen@[u] && 0 <= f < gate.edges@.len() && gate.edges@[f].source@ == gate.nodes@[u].name@ implies {
            let v = node_index(gate.nodes@, gate.edges@[f].sink.0@);
            0 <= v < n && seen@[v] && rank@[v] < rank@[u]
        } by {
        let v = node_index(gate.nodes@, gate.edges@[f].sink.0@);
        if u == node {
            assert(0 <= v < n && seen_before[v]);
        } else {
            assert(seen_before[u]);
            assert(0 <= v < n && seen_before[v] && rank_before[v] < rank_before[u]);
        }
    }
    Ok(true)
}

/// Checks the wiring of `gate` and, through the registry, of every gate type it
/// instantiates; `expanding` marks the registered gate types being checked.
fn check_gate(graph: &Graph, gate: &Gate, expanding: &mut Vec<bool>) -> (r: Result<bool, AnalysisError>)
    requires
        old(expanding)@.len() == graph.gates@.len(),
    ensures
        final(expanding)@.len() == graph.gates@.len(),
        r is Ok ==> final(expanding)@ == old(expanding)@,
        check_view(r) == type_check(*graph, *gate, old(expanding)@, count_false(old(expanding)@)),
    decreases count_false(old(expanding)@),
{
    if let Some(missing) = find_dangling(gate) {
        return Err(AnalysisError::DanglingEdge(missing));
    }
    let n = gate.nodes.len();
    let mut seen: Vec<bool> = Vec::new();
    let mut grey: Vec<bool> = Vec::new();
    let mut rank: Vec<usize> = Vec::new();
    let mut clock: usize = 0;
    let mut j: usize = 0;
    while j < n
        invariant
            0 <= j <= n,
            n == gate.nodes@.len(),
            seen@.len() == j,
            grey@.len() == j,
            rank@.len() == j,
            forall|t: int| 0 <= t < j ==> !(#[trigger] grey@[t]),
            forall|t: int| 0 <= t < j ==> !(#[trigger] seen@[t]),
            count_false(seen@) == j,
        decreases n - j,
    {
        let ghost before = seen@;
        seen.push(false);
        assert(seen@.drop_last() =~= before);
        grey.push(false);
        rank.push(0);
        j = j + 1;
    }
    let mut k: usize = 0;
    while k < gate.inputs.len()
        invariant
            0 <= k <= gate.inputs@.len(),
            n == gate.nodes@.len(),
            seen@.len() == n,
            grey@.len() == n,
            rank@.len() == n,
            forall|t: int| 0 <= t < n ==> !(#[trigger] grey@[t]),
            forall|t: int| 0 <= t < n ==> !(seen@[t] && grey@[t]),
            ranked(*gate, seen@, rank@),
            forall|u: int| 0 <= u < n && seen@[u] ==> rank@[u] < clock,
            clock + count_false(seen@) == n,
            forall|q: int|
                0 <= q < k && node_index(gate.nodes@, (#[trigger] gate.inputs@[q])@) >= 0
                    ==> seen@[node_index(gate.nodes@, gate.inputs@[q]@)],
            expanding@ == old(expanding)@,
            old(expanding)@.len() == graph.gates@.len(),
            edges_resolve(*gate),
            first_dangling(*gate, gate.edges@.len() as nat) is None,
        decreases gate.inputs@.len() - k,
    {
        if let Some(start) = find_node(&gate.nodes, &gate.inputs[k]) {
            if !seen[start] {
                let ghost before = seen@;
                let ghost path = seq![start as int];
                proof {
                    assert(path[0] == node_index(gate.nodes@, gate.inputs@[k as int]@));
                    assert(is_path(*gate, path));
                }
                match visit(gate, &mut seen, &mut grey, &mut rank, &mut clock, start, Ghost(path)) {
                    Ok(true) => {},
                    other => {
                        proof {
                            let (k0, p0, c0) = choose|k0: int, p0: Seq<int>, c0: Seq<int>| #[trigger] loop_at(*gate, k0, p0, c0);
                            lemma_reachable_loop_is_rejected(*gate, k0, p0, c0);
                        }
                        return other;
                    },
                }
                assert forall|q: int|
                    0 <= q < k && node_index(gate.nodes@, (#[trigger] gate.inputs@[q])@) >= 0
                        implies seen@[node_index(gate.nodes@, gate.inputs@[q]@)] by {
                    lemma_node_index_bounds(gate.nodes@, gate.inputs@[q]@);
                    assert(before[node_index(gate.nodes@, gate.inputs@[q]@)]);
                }
            }
        }
        k = k + 1;
    }
    assert(ranked(*gate, seen@, rank@) && inputs_covered(*gate, seen@));
    assert(acyclic_from_inputs(*gate));
    let ghost e0 = old(expanding)@;
    let ghost f0 = count_false(e0);
    let mut i: usize = 0;
    while i < n
        invariant
            0 <= i <= n,
            n == gate.nodes@.len(),
            expanding@ == e0,
            e0 == old(expanding)@,
            f0 == count_false(e0),
            e0.len() == graph.gates@.len(),
            type_check(*graph, *gate, e0, f0) == subs_check(*graph, *gate, e0, f0, i as nat),
        decreases n - i,
    {
        if let Type::Internal(sub) = &gate.nodes[i].type_ {
            if !is_nand(sub) {
                let gi = match find_gate(graph, sub) {
                    None => {
                        return Err(AnalysisError::UnknownGate(sub.clone()));
                    },
                    Some(gi) => gi,
                };
                if expanding[gi] {
                    return Err(AnalysisError::RecursiveGateType(sub.clone()));
                }
                expanding.set(gi, true);
                proof {
                    lemma_count_false_set(e0, gi as int);
                }
                let ok = check_gate(graph, &graph.gates[gi].1, expanding)?;
                expanding.set(gi, false);
                assert(expanding@ =~= e0);
                if !ok {
                    return Ok(false);
                }
            }
        }
        i = i + 1;
    }
    Ok(true)
}

/// Whether the wiring of `gate` is free of combinational loops, and so,
/// recursively, that of every gate type it instantiates other than `"nand"`:
/// the result is `type_check` with no gate type being checked yet.
///
/// An edge into no node fails with `DanglingEdge`, naming the first such sink.
/// Else the result is `false` exactly when a loop is reachable from a declared
/// input (the search starts from each input and fails on reaching again a node
/// of the path it is on). Else each sub-gate instance is checked in turn: an
/// unregistered type fails with `UnknownGate`, a type that contains itself,
/// directly or through other types, with `RecursiveGateType`, and a type whose
/// own result is `false` makes the result `false`.
pub fn loop_free(graph: &Graph, gate: &Gate) -> (r: Result<bool, AnalysisError>)
    ensures
        check_view(r) == type_check(
            *graph,
            *gate,
            Seq::new(graph.gates@.len(), |i: int| false),
            graph.gates@.len() as nat,
        ),
{
    let mut expanding: Vec<bool> = Vec::new();
    let mut i: usize = 0;
    while i < graph.gates.len()
        invariant
            0 <= i <= graph.gates@.len(),
            expanding@ == Seq::new(i as nat, |t: int| false),
            count_false(expanding@) == i,
        decreases graph.gates@.len() - i,
    {
        let ghost before = expanding@;
        expanding.push(false);
        assert(expanding@.drop_last() =~= before);
        i = i + 1;
        assert(expanding@ =~= Seq::new(i as nat, |t: int| false));
    }
    check_gate(graph, gate, &mut expanding)
}

proof fn lemma_path_ranked(gate: Gate, seen: Seq<bool>, rank: Seq<usize>, p: Seq<int>, i: int)
    requires
        ranked(gate, seen, rank),
        is_path(gate, p),
        0 <= i < p.len(),
        seen[p[0]],
    ensures
        seen[p[i]],
        i > 0 ==> rank[p[i]] < rank[p[0]],
    decreases i,
{
    if i > 0 {
        lemma_path_ranked(gate, seen, rank, p, i - 1);
        assert(wired(gate, p[i - 1], p[i]));
        let e = choose|e: int|
            0 <= e < gate.edges@.len() && (#[trigger] gate.edges@[e]).source@ == gate.nodes@[p[i - 1]].name@
                && node_index(gate.nodes@, gate.edges@[e].sink.0@) == p[i];
        assert(seen[p[i - 1]]);
    }
}

/// A gate whose wiring holds a loop that a path from a declared input reaches
/// is never acyclic from its inputs, so `loop_free` cannot accept it: `path`
/// leads from the node of input `k` to the first node of `cycle`, whose nodes
/// are wired in turn, the last back to the first.
pub proof fn lemma_reachable_loop_is_rejected(gate: Gate, k: int, path: Seq<int>, cycle: Seq<int>)
    requires
        loop_at(gate, k, path, cycle),
    ensures
        !acyclic_from_inputs(gate),
{
    if acyclic_from_inputs(gate) {
        let (seen, rank) = choose|seen: Seq<bool>, rank: Seq<usize>|
            #![trigger ranked(gate, seen, rank)]
            seen.len() == gate.nodes@.len() && rank.len() == gate.nodes@.len() && ranked(gate, seen, rank)
                && inputs_covered(gate, seen);
        assert(path[0] >= 0);
        assert(seen[path[0]]);
        lemma_path_ranked(gate, seen, rank, path, path.len() - 1);
        let last = cycle.len() - 1;
        lemma_path_ranked(gate, seen, rank, cycle, last);
        let closing = seq![cycle.last(), cycle[0]];
        assert(is_path(gate, closing)) by {
            assert(closing[0] == cycle.last() && closing[1] == cycle[0]);
        }
        assert(seen[cycle[last]]);
        lemma_path_ranked(gate, seen, rank, closing, 1);
        assert(rank[cycle[0]] < rank[cycle[last]]);
    }
}

} // verus!
