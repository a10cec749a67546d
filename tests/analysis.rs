use hdml_analyser::{
    all_inputs, calculate_value, display_truth_table, evaluate_row, loop_free, nand_truth_table,
    synthesize, truth_table, AnalysisError, Edge, Gate, Graph, Node, TruthTable, Type,
};

fn s(x: &str) -> String {
    x.to_string()
}

fn input(name: &str) -> Node {
    Node { type_: Type::Input, name: s(name) }
}

fn output(name: &str) -> Node {
    Node { type_: Type::Output, name: s(name) }
}

fn inst(name: &str, gate_type: &str) -> Node {
    Node { type_: Type::Internal(s(gate_type)), name: s(name) }
}

fn wire(source: &str, target: &str, port: &str) -> Edge {
    Edge { source: s(source), sink: (s(target), s(port)) }
}

fn row(values: &[(&str, bool)]) -> Vec<(String, bool)> {
    values.iter().map(|(n, v)| (s(n), *v)).collect()
}

/// AND as the NAND of a NAND with itself.
fn and_gate() -> Gate {
    Gate {
        inputs: vec![s("a"), s("b")],
        nodes: vec![input("a"), input("b"), inst("n1", "nand"), inst("n2", "nand"), output("out")],
        edges: vec![
            wire("a", "n1", "x"),
            wire("b", "n1", "y"),
            wire("n1", "n2", "x"),
            wire("n1", "n2", "y"),
            wire("n2", "out", "in"),
        ],
    }
}

/// XOR from four NANDs.
fn xor_gate() -> Gate {
    Gate {
        inputs: vec![s("a"), s("b")],
        nodes: vec![
            input("a"),
            input("b"),
            inst("n1", "nand"),
            inst("n2", "nand"),
            inst("n3", "nand"),
            inst("n4", "nand"),
            output("out"),
        ],
        edges: vec![
            wire("a", "n1", "x"),
            wire("a", "n2", "x"),
            wire("b", "n1", "y"),
            wire("b", "n3", "x"),
            wire("n1", "n2", "y"),
            wire("n1", "n3", "y"),
            wire("n2", "n4", "x"),
            wire("n3", "n4", "y"),
            wire("n4", "out", "in"),
        ],
    }
}

/// NOT as the NAND of an input with itself.
fn not_gate() -> Gate {
    Gate {
        inputs: vec![s("a")],
        nodes: vec![input("a"), inst("n", "nand"), output("out")],
        edges: vec![wire("a", "n", "x"), wire("a", "n", "y"), wire("n", "out", "in")],
    }
}

fn graph_of(gates: Vec<(&str, Gate)>) -> Graph {
    Graph { gates: gates.into_iter().map(|(n, g)| (s(n), g)).collect() }
}

fn expect_rows(table: &TruthTable, expected: &[(bool, bool, bool)]) {
    assert_eq!(table.rows.len(), expected.len());
    for (r, (a, b, o)) in table.rows.iter().zip(expected.iter()) {
        assert_eq!(r.0, row(&[("a", *a), ("b", *b)]));
        assert_eq!(r.1, *o);
    }
}

#[test]
fn test_truth_table() {
    let graph = graph_of(vec![("xor", xor_gate())]);
    let mut lookups = Vec::new();
    let table = truth_table(&graph, &mut lookups, &s("xor")).unwrap();
    expect_rows(
        &table,
        &[(false, false, false), (true, false, true), (false, true, true), (true, true, false)],
    );
}

#[test]
fn nand_table_has_its_four_rows() {
    let t = nand_truth_table();
    assert_eq!(t.rows.len(), 4);
    let expected = [(false, false, true), (false, true, true), (true, false, true), (true, true, false)];
    for (r, (x, y, o)) in t.rows.iter().zip(expected.iter()) {
        assert_eq!(r.0, row(&[("x", *x), ("y", *y)]));
        assert_eq!(r.1, *o);
    }
}

#[test]
fn nand_requested_by_name() {
    let graph = graph_of(vec![]);
    let mut memo = Vec::new();
    let t = truth_table(&graph, &mut memo, &s("nand")).unwrap();
    assert_eq!(t.rows.len(), 4);
    assert_eq!(t.rows[3].1, false);
    assert_eq!(memo.len(), 1);
}

#[test]
fn enumeration_order_first_input_is_bit_zero() {
    let g = and_gate();
    let rows = all_inputs(&g);
    assert_eq!(
        rows,
        vec![
            row(&[("a", false), ("b", false)]),
            row(&[("a", true), ("b", false)]),
            row(&[("a", false), ("b", true)]),
            row(&[("a", true), ("b", true)]),
        ]
    );
}

#[test]
fn enumeration_of_three_inputs() {
    let g = Gate { inputs: vec![s("p"), s("q"), s("r")], nodes: vec![], edges: vec![] };
    let rows = all_inputs(&g);
    assert_eq!(rows.len(), 8);
    assert_eq!(rows[5], row(&[("p", true), ("q", false), ("r", true)]));
    assert_eq!(rows[6], row(&[("p", false), ("q", true), ("r", true)]));
}

#[test]
fn enumeration_without_inputs() {
    let g = Gate { inputs: vec![], nodes: vec![], edges: vec![] };
    let rows = all_inputs(&g);
    assert_eq!(rows, vec![Vec::<(String, bool)>::new()]);
}

#[test]
fn and_from_nands() {
    let graph = graph_of(vec![("and", and_gate())]);
    let mut memo = Vec::new();
    let t = truth_table(&graph, &mut memo, &s("and")).unwrap();
    expect_rows(
        &t,
        &[(false, false, false), (true, false, false), (false, true, false), (true, true, true)],
    );
}

#[test]
fn xor_from_nands() {
    let graph = graph_of(vec![("xor", xor_gate())]);
    let mut memo = Vec::new();
    let t = truth_table(&graph, &mut memo, &s("xor")).unwrap();
    let find = |a: bool, b: bool| {
        t.rows.iter().find(|r| r.0 == row(&[("a", a), ("b", b)])).map(|r| r.1)
    };
    assert_eq!(find(false, false), Some(false));
    assert_eq!(find(false, true), Some(true));
    assert_eq!(find(true, false), Some(true));
    assert_eq!(find(true, true), Some(false));
}

#[test]
fn nand_dag_defines_every_row() {
    let graph = graph_of(vec![("xor", xor_gate()), ("and", and_gate())]);
    let mut memo = Vec::new();
    assert_eq!(truth_table(&graph, &mut memo, &s("xor")).unwrap().rows.len(), 4);
    assert_eq!(truth_table(&graph, &mut memo, &s("and")).unwrap().rows.len(), 4);
    let g3 = Gate {
        inputs: vec![s("a"), s("b"), s("c")],
        nodes: vec![input("a"), input("b"), input("c"), inst("n1", "nand"), inst("n2", "nand"), output("out")],
        edges: vec![
            wire("a", "n1", "x"),
            wire("b", "n1", "y"),
            wire("n1", "n2", "x"),
            wire("c", "n2", "y"),
            wire("n2", "out", "in"),
        ],
    };
    let graph3 = graph_of(vec![("g3", g3)]);
    let mut memo3 = Vec::new();
    assert_eq!(truth_table(&graph3, &mut memo3, &s("g3")).unwrap().rows.len(), 8);
}

#[test]
fn composite_of_composites() {
    let xnor = Gate {
        inputs: vec![s("a"), s("b")],
        nodes: vec![input("a"), input("b"), inst("x", "xor"), inst("n", "not"), output("out")],
        edges: vec![wire("a", "x", "a"), wire("b", "x", "b"), wire("x", "n", "a"), wire("n", "out", "in")],
    };
    let graph = graph_of(vec![("xor", xor_gate()), ("not", not_gate()), ("xnor", xnor)]);
    let mut memo = Vec::new();
    let t = truth_table(&graph, &mut memo, &s("xnor")).unwrap();
    expect_rows(
        &t,
        &[(false, false, true), (true, false, false), (false, true, false), (true, true, true)],
    );
    // the tables of the sub-gate types were cached on the way
    assert_eq!(memo.len(), 4);
}

#[test]
fn second_request_uses_the_cache() {
    let graph = graph_of(vec![("xor", xor_gate())]);
    let mut memo = Vec::new();
    let first = truth_table(&graph, &mut memo, &s("xor")).unwrap();
    let entries = memo.len();
    let second = truth_table(&graph, &mut memo, &s("xor")).unwrap();
    assert_eq!(memo.len(), entries);
    assert_eq!(first.rows, second.rows);
}

#[test]
fn constants_drive_signals() {
    let g = Gate {
        inputs: vec![s("a")],
        nodes: vec![input("a"), inst("n", "nand"), output("out")],
        edges: vec![wire("a", "n", "x"), wire("1", "n", "y"), wire("n", "out", "in")],
    };
    let graph = graph_of(vec![("inv", g)]);
    let mut memo = Vec::new();
    let t = truth_table(&graph, &mut memo, &s("inv")).unwrap();
    assert_eq!(t.rows.len(), 2);
    assert_eq!(t.rows[0], (row(&[("a", false)]), true));
    assert_eq!(t.rows[1], (row(&[("a", true)]), false));
}

#[test]
fn unreachable_output_leaves_rows_undefined() {
    let g = Gate {
        inputs: vec![s("a")],
        nodes: vec![input("a"), inst("n", "nand"), output("out")],
        edges: vec![wire("a", "n", "x"), wire("n", "out", "in")],
    };
    let graph = graph_of(vec![("half", g)]);
    let mut memo = Vec::new();
    let t = truth_table(&graph, &mut memo, &s("half")).unwrap();
    // with x false the NAND is true whatever y is; with x true it stays open
    assert_eq!(t.rows.len(), 1);
    assert_eq!(t.rows[0], (row(&[("a", false)]), true));
}

#[test]
fn unknown_gate_is_an_error() {
    let graph = graph_of(vec![("xor", xor_gate())]);
    let mut memo = Vec::new();
    let r = truth_table(&graph, &mut memo, &s("nor"));
    assert_eq!(r.unwrap_err(), AnalysisError::UnknownGate(s("nor")));
}

#[test]
fn unknown_sub_gate_is_an_error() {
    let g = Gate {
        inputs: vec![s("a")],
        nodes: vec![input("a"), inst("m", "mystery"), output("out")],
        edges: vec![wire("a", "m", "x"), wire("m", "out", "in")],
    };
    let graph = graph_of(vec![("g", g)]);
    let mut memo = Vec::new();
    let r = truth_table(&graph, &mut memo, &s("g"));
    assert_eq!(r.unwrap_err(), AnalysisError::UnknownGate(s("mystery")));
    assert_eq!(loop_free(&graph, &graph.gates[0].1), Err(AnalysisError::UnknownGate(s("mystery"))));
}

#[test]
fn dangling_edge_is_an_error() {
    let g = Gate {
        inputs: vec![s("a")],
        nodes: vec![input("a"), output("out")],
        edges: vec![wire("a", "ghost", "x"), wire("a", "out", "in")],
    };
    let graph = graph_of(vec![("g", g)]);
    let mut memo = Vec::new();
    let r = truth_table(&graph, &mut memo, &s("g"));
    assert_eq!(r.unwrap_err(), AnalysisError::DanglingEdge(s("ghost")));
    assert_eq!(loop_free(&graph, &graph.gates[0].1), Err(AnalysisError::DanglingEdge(s("ghost"))));
}

#[test]
fn wire_into_input_is_an_error() {
    let g = Gate {
        inputs: vec![s("a"), s("b")],
        nodes: vec![input("a"), input("b"), output("out")],
        edges: vec![wire("a", "b", "x"), wire("a", "out", "in")],
    };
    let graph = graph_of(vec![("g", g)]);
    let mut memo = Vec::new();
    let r = truth_table(&graph, &mut memo, &s("g"));
    assert_eq!(r.unwrap_err(), AnalysisError::WireIntoInput(s("b")));
}

#[test]
fn self_containing_gate_type_is_an_error() {
    let g = Gate {
        inputs: vec![s("a")],
        nodes: vec![input("a"), inst("inner", "outer"), output("out")],
        edges: vec![wire("a", "inner", "a"), wire("inner", "out", "in")],
    };
    let graph = graph_of(vec![("outer", g)]);
    let mut memo = Vec::new();
    let r = truth_table(&graph, &mut memo, &s("outer"));
    assert_eq!(r.unwrap_err(), AnalysisError::RecursiveGateType(s("outer")));
    assert_eq!(loop_free(&graph, &graph.gates[0].1), Err(AnalysisError::RecursiveGateType(s("outer"))));
}

#[test]
fn too_many_inputs_is_an_error() {
    let names: Vec<String> = (0..64).map(|i| format!("i{}", i)).collect();
    let g = Gate { inputs: names, nodes: vec![], edges: vec![] };
    let graph = graph_of(vec![("wide", g)]);
    let mut memo = Vec::new();
    let r = truth_table(&graph, &mut memo, &s("wide"));
    assert_eq!(r.unwrap_err(), AnalysisError::TooManyInputs(s("wide")));
}

fn looped_gate(with_back_edge: bool) -> Gate {
    let mut edges = vec![
        wire("a", "n1", "x"),
        wire("n1", "n2", "x"),
        wire("b", "n2", "y"),
        wire("n2", "out", "in"),
    ];
    if with_back_edge {
        edges.push(wire("n2", "n1", "y"));
    }
    Gate {
        inputs: vec![s("a"), s("b")],
        nodes: vec![input("a"), input("b"), inst("n1", "nand"), inst("n2", "nand"), output("out")],
        edges,
    }
}

#[test]
fn back_edge_makes_a_loop() {
    let graph = graph_of(vec![]);
    assert_eq!(loop_free(&graph, &looped_gate(true)), Ok(false));
    assert_eq!(loop_free(&graph, &looped_gate(false)), Ok(true));
}

#[test]
fn direct_self_loop() {
    let g = Gate {
        inputs: vec![s("a")],
        nodes: vec![input("a"), inst("n", "nand"), output("out")],
        edges: vec![wire("a", "n", "x"), wire("n", "n", "y"), wire("n", "out", "in")],
    };
    assert_eq!(loop_free(&graph_of(vec![]), &g), Ok(false));
}

#[test]
fn loop_inside_a_sub_gate_type() {
    let outer = Gate {
        inputs: vec![s("a"), s("b")],
        nodes: vec![input("a"), input("b"), inst("l", "looped"), output("out")],
        edges: vec![wire("a", "l", "a"), wire("b", "l", "b"), wire("l", "out", "in")],
    };
    let graph = graph_of(vec![("looped", looped_gate(true))]);
    assert_eq!(loop_free(&graph, &outer), Ok(false));
    let graph_ok = graph_of(vec![("looped", looped_gate(false))]);
    assert_eq!(loop_free(&graph_ok, &outer), Ok(true));
}

#[test]
fn acyclic_fixtures_pass() {
    let graph = graph_of(vec![("xor", xor_gate()), ("and", and_gate())]);
    assert_eq!(loop_free(&graph, &xor_gate()), Ok(true));
    assert_eq!(loop_free(&graph, &and_gate()), Ok(true));
}

fn table(rows: &[(bool, bool, bool)]) -> TruthTable {
    TruthTable { rows: rows.iter().map(|(x, y, o)| (row(&[("x", *x), ("y", *y)]), *o)).collect() }
}

#[test]
fn partial_knowledge_resolves_when_rows_agree() {
    let t = nand_truth_table();
    assert_eq!(calculate_value(&t, &row(&[("x", false)])), Some(true));
    assert_eq!(calculate_value(&t, &row(&[("y", false)])), Some(true));
    assert_eq!(calculate_value(&t, &row(&[("x", true)])), None);
    assert_eq!(calculate_value(&t, &row(&[("x", true), ("y", true)])), Some(false));
    assert_eq!(calculate_value(&t, &row(&[])), None);
}

#[test]
fn no_consistent_row_resolves_nothing() {
    let t = table(&[(false, false, true)]);
    assert_eq!(calculate_value(&t, &row(&[("x", true)])), None);
    assert_eq!(calculate_value(&t, &row(&[("x", false)])), Some(true));
    assert_eq!(calculate_value(&t, &row(&[("z", false)])), None);
}

#[test]
fn first_arrival_at_output_wins() {
    let g = Gate {
        inputs: vec![s("a")],
        nodes: vec![input("a"), inst("n", "nand"), output("out")],
        edges: vec![wire("a", "n", "x"), wire("a", "n", "y"), wire("n", "out", "p"), wire("a", "out", "q")],
    };
    let tables = vec![
        TruthTable { rows: vec![] },
        nand_truth_table(),
        TruthTable { rows: vec![] },
    ];
    // `a` reaches the output before the NAND has emitted
    assert_eq!(evaluate_row(&g, &tables, &row(&[("a", true)])), Ok(Some(true)));
    let t = synthesize(&g, &tables).unwrap();
    assert_eq!(t.rows, vec![(row(&[("a", false)]), false), (row(&[("a", true)]), true)]);
}

#[test]
fn header_lists_the_inputs() {
    let t = nand_truth_table();
    assert_eq!(display_truth_table(&xor_gate(), &t), "a,b");
    let g = Gate { inputs: vec![s("p"), s("q"), s("r")], nodes: vec![], edges: vec![] };
    assert_eq!(display_truth_table(&g, &t), "p,q,r");
    let empty = Gate { inputs: vec![], nodes: vec![], edges: vec![] };
    assert_eq!(display_truth_table(&empty, &t), "");
}

#[test]
fn rendering_lists_defined_rows_in_order() {
    let graph = graph_of(vec![("xor", xor_gate())]);
    let mut memo = Vec::new();
    let t = truth_table(&graph, &mut memo, &s("xor")).unwrap();
    assert_eq!(display_truth_table(&xor_gate(), &t), "a,b\n0,0 -> 0\n1,0 -> 1\n0,1 -> 1\n1,1 -> 0");
}

#[test]
fn rendering_elides_undefined_rows_and_keeps_canonical_order() {
    let t = TruthTable {
        rows: vec![
            (row(&[("a", true), ("b", true)]), false),
            (row(&[("a", false), ("b", false)]), true),
        ],
    };
    let g = Gate { inputs: vec![s("a"), s("b")], nodes: vec![], edges: vec![] };
    assert_eq!(display_truth_table(&g, &t), "a,b\n0,0 -> 1\n1,1 -> 0");
}
