//! Evaluation of one row of a gate's truth table by signal propagation.
//!
//! Signals wait in a first-in first-out queue, seeded with the row's input
//! values and the constants `"1"` and `"0"`. Taking a signal delivers its value
//! along every edge that leaves the node of that name. A value that reaches the
//! output node decides the row: the first arrival wins. A value that reaches an
//! instance of a sub-gate is recorded at its port; as soon as the ports known so
//! far decide the sub-gate's output (see `calculate_value`), the instance emits
//! that output as a new signal. An instance emits at most once per row: once
//! decided, its output cannot change.
use vstd::prelude::*;
use crate::ir::{
    Assign, AnalysisError, ErrorView, Gate, Type, assign_view, find_node, node_index,
    lemma_node_index_bounds,
};
use crate::table::{TableView, TruthTable, calculate_value, resolve};

verus! {

/// The state of the propagation within one row.
pub struct RowState {
    /// Signals waiting to be delivered, by node name.
    pub queue: Seq<(Seq<char>, bool)>,
    /// For each node, the values that have reached its ports so far.
    pub known: Seq<Assign>,
    /// For each node, whether it has emitted its output.
    pub emitted: Seq<bool>,
}

/// What delivering a value along an edge leads to.
pub enum Step {
    Continue(RowState),
    Decided(bool),
    Failed(ErrorView),
}

/// `a` without any value for port `p`.
pub open spec fn without_port(a: Assign, p: Seq<char>) -> Assign
    decreases a.len(),
{
    if a.len() == 0 {
        a
    } else if a.last().0 == p {
        without_port(a.drop_last(), p)
    } else {
        without_port(a.drop_last(), p).push(a.last())
    }
}

/// `a` with port `p` set to `v`.
pub open spec fn set_port(a: Assign, p: Seq<char>, v: bool) -> Assign {
    without_port(a, p).push((p, v))
}

pub open spec fn one_name() -> Seq<char> {
    seq!['1']
}

pub open spec fn zero_name() -> Seq<char> {
    seq!['0']
}

/// The number of entries of `s` that are false.
pub open spec fn count_false(s: Seq<bool>) -> nat
    decreases s.len(),
{
    if s.len() == 0 {
        0
    } else {
        count_false(s.drop_last()) + if s.last() { 0nat } else { 1nat }
    }
}

/// How many more signals a row can take at most.
pub open spec fn measure(st: RowState) -> nat {
    st.queue.len() + count_false(st.emitted)
}

/// The state in which a row starts.
pub open spec fn row_start(gate: Gate, row: Assign) -> RowState {
    RowState {
        queue: row + seq![(one_name(), true), (zero_name(), false)],
        known: Seq::new(gate.nodes@.len(), |i: int| Seq::<(Seq<char>, bool)>::empty()),
        emitted: Seq::new(gate.nodes@.len(), |i: int| false),
    }
}

/// Delivers value `v` of signal `s` along edge `e` of `gate`.
pub open spec fn deliver_one(
    gate: Gate,
    tables: Seq<TableView>,
    st: RowState,
    s: Seq<char>,
    v: bool,
    e: int,
) -> Step {
    let edge = gate.edges@[e];
    if edge.source@ != s {
        Step::Continue(st)
    } else {
        let target = edge.sink.0@;
        let idx = node_index(gate.nodes@, target);
        if idx < 0 {
            Step::Failed(ErrorView::DanglingEdge(target))
        } else {
            let acc = set_port(st.known[idx], edge.sink.1@, v);
            let known = st.known.update(idx, acc);
            match gate.nodes@[idx].type_ {
                Type::Input => Step::Failed(ErrorView::WireIntoInput(target)),
                Type::Output => Step::Decided(v),
                Type::Internal(_) => match resolve(tables[idx], acc) {
                    Some(b) => if st.emitted[idx] {
                        Step::Continue(RowState { known, ..st })
                    } else {
                        Step::Continue(
                            RowState {
                                queue: st.queue.push((target, b)),
                                known,
                                emitted: st.emitted.update(idx, true),
                            },
                        )
                    },
                    None => Step::Continue(RowState { known, ..st }),
                },
            }
        }
    }
}

/// Delivers value `v` of signal `s` along the first `e` edges of `gate`, in
/// order, stopping at the first edge that decides the row or fails.
pub open spec fn deliver_upto(
    gate: Gate,
    tables: Seq<TableView>,
    st: RowState,
    s: Seq<char>,
    v: bool,
    e: nat,
) -> Step
    decreases e,
{
    if e == 0 {
        Step::Continue(st)
    } else {
        match deliver_upto(gate, tables, st, s, v, (e - 1) as nat) {
            Step::Continue(st2) => deliver_one(gate, tables, st2, s, v, e - 1),
            other => other,
        }
    }
}

/// Takes signals from the queue of `st`, at most `fuel` of them, until one
/// decides the row, an edge fails, or the queue is empty (`Ok(None)`).
pub open spec fn run(gate: Gate, tables: Seq<TableView>, st: RowState, fuel: nat) -> Result<
    Option<bool>,
    ErrorView,
>
    decreases fuel,
{
    if st.queue.len() == 0 || fuel == 0 {
        Ok(None)
    } else {
        let sig = st.queue[0];
        let popped = RowState { queue: st.queue.drop_first(), ..st };
        match deliver_upto(gate, tables, popped, sig.0, sig.1, gate.edges@.len()) {
            Step::Continue(next) => run(gate, tables, next, (fuel - 1) as nat),
            Step::Decided(b) => Ok(Some(b)),
            Step::Failed(err) => Err(err),
        }
    }
}

/// The output of `gate` on the row assignment `row`, given the table of each
/// of its nodes (used for its sub-gate instances): `Ok(None)` when no signal
/// reaches the output.
pub open spec fn row_output(gate: Gate, tables: Seq<TableView>, row: Assign) -> Result<
    Option<bool>,
    ErrorView,
> {
    let st = row_start(gate, row);
    run(gate, tables, st, measure(st))
}

pub open spec fn tables_view(tables: Seq<TruthTable>) -> Seq<TableView> {
    tables.map_values(|t: TruthTable| t@)
}

pub open spec fn outcome_view(r: Result<Option<bool>, AnalysisError>) -> Result<Option<bool>, ErrorView> {
    match r {
        Ok(o) => Ok(o),
        Err(e) => Err(e@),
    }
}

pub open spec fn state_view(
    queue: Seq<(String, bool)>,
    head: int,
    known: Seq<Vec<(String, bool)>>,
    emitted: Seq<bool>,
) -> RowState {
    RowState {
        queue: assign_view(queue.subrange(head, queue.len() as int)),
        known: known.map_values(|a: Vec<(String, bool)>| assign_view(a@)),
        emitted,
    }
}

pub proof fn lemma_count_false_set(s: Seq<bool>, i: int)
    requires
        0 <= i < s.len(),
        !s[i],
    ensures
        count_false(s.update(i, true)) + 1 == count_false(s),
    decreases s.len(),
{
    let t = s.update(i, true);
    if i == s.len() - 1 {
        assert(t.drop_last() =~= s.drop_last());
    } else {
        assert(t.drop_last() =~= s.drop_last().update(i, true));
        lemma_count_false_set(s.drop_last(), i);
    }
}

proof fn lemma_stop_persists(
    gate: Gate,
    tables: Seq<TableView>,
    st: RowState,
    s: Seq<char>,
    v: bool,
    e1: nat,
    e2: nat,
)
    requires
        e1 <= e2,
        !(deliver_upto(gate, tables, st, s, v, e1) is Continue),
    ensures
        deliver_upto(gate, tables, st, s, v, e2) == deliver_upto(gate, tables, st, s, v, e1),
    decreases e2,
{
    if e1 < e2 {
        lemma_stop_persists(gate, tables, st, s, v, e1, (e2 - 1) as nat);
    }
}

/// Sets port `p` to `v` in the assignment `a`.
pub fn set_port_value(a: &Vec<(String, bool)>, p: &String, v: bool) -> (r: Vec<(String, bool)>)
    ensures
        assign_view(r@) == set_port(assign_view(a@), p@, v),
{
    let ghost av = assign_view(a@);
    let mut out: Vec<(String, bool)> = Vec::new();
    let mut i: usize = 0;
    while i < a.len()
        invariant
            0 <= i <= a@.len(),
            av == assign_view(a@),
            assign_view(out@) == without_port(av.subrange(0, i as int), p@),
        decreases a@.len() - i,
    {
        assert(av.subrange(0, i as int + 1).drop_last() =~= av.subrange(0, i as int));
        if a[i].0 != *p {
            let ghost before = out@;
            out.push((a[i].0.clone(), a[i].1));
            assert(assign_view(out@) =~= assign_view(before).push(av[i as int]));
        }
        i = i + 1;
    }
    assert(av.subrange(0, i as int) =~= av);
    let ghost before = out@;
    out.push((p.clone(), v));
    assert(assign_view(out@) =~= assign_view(before).push((p@, v)));
    out
}


/// Evaluates `gate` on the row assignment `row`, given in `tables` the truth
/// table of each of its nodes (consulted for instances of sub-gates only).
/// The result is the first value that reaches the output node, `Ok(None)` when
/// none does, or the error of the first edge that leads to no node or into an
/// input node.
pub fn evaluate_row(gate: &Gate, tables: &Vec<TruthTable>, row: &Vec<(String, bool)>) -> (r: Result<
    Option<bool>,
    AnalysisError,
>)
    requires
        tables@.len() == gate.nodes@.len(),
    ensures
        outcome_view(r) == row_output(*gate, tables_view(tables@), assign_view(row@)),
{
    let ghost tv = tables_view(tables@);
    let ghost g = *gate;
    let n = gate.nodes.len();
    let mut queue: Vec<(String, bool)> = Vec::new();
    let mut i: usize = 0;
    while i < row.len()
        invariant
            0 <= i <= row@.len(),
            queue@ == row@.subrange(0, i as int),
        decreases row@.len() - i,
    {
        queue.push((row[i].0.clone(), row[i].1));
        i = i + 1;
        assert(queue@ =~= row@.subrange(0, i as int));
    }
    let one = "1".to_owned();
    let zero = "0".to_owned();
    proof {
        reveal_strlit("1");
        reveal_strlit("0");
    }
    assert(one@ =~= one_name());
    assert(zero@ =~= zero_name());
    queue.push((one, true));
    queue.push((zero, false));
    let mut known: Vec<Vec<(String, bool)>> = Vec::new();
    let mut emitted: Vec<bool> = Vec::new();
    let mut j: usize = 0;
    while j < n
        invariant
            0 <= j <= n,
            n == gate.nodes@.len(),
            known@.len() == j,
            emitted@.len() == j,
            forall|t: int| 0 <= t < j ==> (#[trigger] known@[t])@.len() == 0,
            forall|t: int| 0 <= t < j ==> !(#[trigger] emitted@[t]),
        decreases n - j,
    {
        known.push(Vec::new());
        emitted.push(false);
        j = j + 1;
    }
    let mut head: usize = 0;
    let ghost start = row_start(g, assign_view(row@));
    proof {
        assert(row@.subrange(0, row@.len() as int) =~= row@);
        let sv = state_view(queue@, 0, known@, emitted@);
        assert(sv.queue =~= start.queue);
        assert forall|t: int| 0 <= t < n implies #[trigger] sv.known[t] == start.known[t] by {
            assert(sv.known[t] =~= start.known[t]);
        }
        assert(sv.known =~= start.known);
        assert(sv.emitted =~= start.emitted);
    }
    while head < queue.len()
        invariant
            0 <= head <= queue@.len(),
            n == gate.nodes@.len(),
            tables@.len() == n,
            known@.len() == n,
            emitted@.len() == n,
            tv == tables_view(tables@),
            g == *gate,
            start == row_start(g, assign_view(row@)),
            run(g, tv, state_view(queue@, head as int, known@, emitted@), measure(state_view(queue@, head as int, known@, emitted@)))
                == run(g, tv, start, measure(start)),
        decreases measure(state_view(queue@, head as int, known@, emitted@)),
    {
        let ghost before = state_view(queue@, head as int, known@, emitted@);
        let sname = queue[head].0.clone();
        let sval = queue[head].1;
        head = head + 1;
        let ghost popped = state_view(queue@, head as int, known@, emitted@);
        assert(popped.queue =~= before.queue.drop_first());
        assert(popped == RowState { queue: before.queue.drop_first(), ..before });
        assert(before.queue[0] == (sname@, sval));
        let ghost m = measure(popped);
        assert(m + 1 == measure(before));
        let mut e: usize = 0;
        while e < gate.edges.len()
            invariant
                0 <= e <= gate.edges@.len(),
                0 <= head <= queue@.len(),
                n == gate.nodes@.len(),
                tables@.len() == n,
                known@.len() == n,
                emitted@.len() == n,
                tv == tables_view(tables@),
                g == *gate,
                deliver_upto(g, tv, popped, sname@, sval, e as nat)
                    == Step::Continue(state_view(queue@, head as int, known@, emitted@)),
                measure(state_view(queue@, head as int, known@, emitted@)) == m,
                m + 1 == measure(before),
                before.queue.len() > 0,
                before.queue[0] == (sname@, sval),
                popped == (RowState { queue: before.queue.drop_first(), ..before }),
                run(g, tv, before, measure(before)) == run(g, tv, start, measure(start)),
                start == row_start(g, assign_view(row@)),
            decreases gate.edges@.len() - e,
        {
            let ghost cur = state_view(queue@, head as int, known@, emitted@);
            let edge = &gate.edges[e];
            if edge.source == sname {
                let target = &edge.sink.0;
                match find_node(&gate.nodes, target) {
                    None => {
                        assert(deliver_upto(g, tv, popped, sname@, sval, (e + 1) as nat) == Step::Failed(ErrorView::DanglingEdge(target@)));
                        proof {
                            lemma_stop_persists(g, tv, popped, sname@, sval, (e + 1) as nat, gate.edges@.len() as nat);
                        }
                        let err = AnalysisError::DanglingEdge(target.clone());
                        assert(run(g, tv, before, measure(before)) == Err::<Option<bool>, ErrorView>(err@));
                        assert(outcome_view(Err(err)) == row_output(g, tv, assign_view(row@)));
                        return Err(err);
                    },
                    Some(idx) => {
                        proof {
                            lemma_node_index_bounds(g.nodes@, target@);
                        }
                        let acc = set_port_value(&known[idx], &edge.sink.1, sval);
                        let ghost kbefore = known@;
                        match &gate.nodes[idx].type_ {
                            Type::Input => {
                                assert(deliver_upto(g, tv, popped, sname@, sval, (e + 1) as nat) == Step::Failed(ErrorView::WireIntoInput(target@)));
                                proof {
                                    lemma_stop_persists(g, tv, popped, sname@, sval, (e + 1) as nat, gate.edges@.len() as nat);
                                }
                                let err = AnalysisError::WireIntoInput(target.clone());
                                assert(run(g, tv, before, measure(before)) == Err::<Option<bool>, ErrorView>(err@));
                        assert(outcome_view(Err(err)) == row_output(g, tv, assign_view(row@)));
                                return Err(err);
                            },
                            Type::Output => {
                                proof {
                                    lemma_stop_persists(g, tv, popped, sname@, sval, (e + 1) as nat, gate.edges@.len() as nat);
                                }
                                return Ok(Some(sval));
                            },
                            Type::Internal(_) => {
                                let decided = calculate_value(&tables[idx], &acc);
                                assert(tv[idx as int] == tables@[idx as int]@);
                                known.set(idx, acc);
                                assert(state_view(queue@, head as int, known@, emitted@).known
                                    =~= cur.known.update(idx as int, set_port(cur.known[idx as int], edge.sink.1@, sval)));
                                match decided {
                                    Some(b) => {
                                        if !emitted[idx] {
                                            let ghost qb = queue@;
                                            let ghost eb = emitted@;
                                            queue.push((target.clone(), b));
                                            emitted.set(idx, true);
                                            proof {
                                                lemma_count_false_set(eb, idx as int);
                                                assert(queue@.subrange(head as int, queue@.len() as int)
                                                    =~= qb.subrange(head as int, qb.len() as int).push(queue@.last()));
                                                assert(assign_view(queue@.subrange(head as int, queue@.len() as int))
                                                    =~= cur.queue.push((target@, b)));
                                            }
                                        }
                                    },
                                    None => {},
                                }
                                assert(deliver_upto(g, tv, popped, sname@, sval, (e + 1) as nat)
                                    == Step::Continue(state_view(queue@, head as int, known@, emitted@)));
                            },
                        }
                    },
                }
            }
            e = e + 1;
        }
    }
    proof {
        let sv = state_view(queue@, head as int, known@, emitted@);
        assert(sv.queue.len() == 0);
    }
    Ok(None)
}

} // verus!
