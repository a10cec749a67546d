//! Memoised synthesis of the truth table of any gate type of a registry.
use vstd::prelude::*;
use crate::ir::{
    AnalysisError, ErrorView, Gate, Graph, Type, find_gate, gate_index, is_nand, lemma_gate_index_bounds,
    nand_name,
};
use crate::propagate::{count_false, lemma_count_false_set, tables_view};
use crate::synth::{gate_table, synthesize, table_result_view};
use crate::table::{TableView, TruthTable, copy_table, nand_table, nand_truth_table};

verus! {

/// The table that the cache `memo` holds for gate type `name` (the last entry
/// of that name), if any.
pub open spec fn memo_lookup(memo: Seq<(String, TruthTable)>, name: Seq<char>) -> Option<TableView>
    decreases memo.len(),
{
    if memo.len() == 0 {
        None
    } else if memo.last().0@ == name {
        Some(memo.last().1@)
    } else {
        memo_lookup(memo.drop_last(), name)
    }
}

/// The table of each node of `gate` as the cache holds it: that of its gate type
/// for a sub-gate instance, none for a port.
pub open spec fn cached_node_tables(gate: Gate, memo: Seq<(String, TruthTable)>) -> Seq<TableView> {
    Seq::new(
        gate.nodes@.len(),
        |i: int|
            match gate.nodes@[i].type_ {
                Type::Internal(sub) => match memo_lookup(memo, sub@) {
                    Some(t) => t,
                    None => Seq::empty(),
                },
                _ => Seq::empty(),
            },
    )
}

/// Whether the cache holds a table for every gate type that `gate` instantiates.
pub open spec fn subs_cached(gate: Gate, memo: Seq<(String, TruthTable)>) -> bool {
    forall|i: int|
        0 <= i < gate.nodes@.len() ==> match (#[trigger] gate.nodes@[i]).type_ {
            Type::Internal(sub) => memo_lookup(memo, sub@) is Some,
            _ => true,
        }
}

/// Whether `t` is the truth table of gate type `name`: the NAND table for the
/// primitive, else the table synthesised for the registered gate of that name
/// from the cached tables of its sub-gate types.
pub open spec fn table_fits(graph: Graph, memo: Seq<(String, TruthTable)>, name: Seq<char>, t: TableView) -> bool {
    if name == nand_name() {
        t == nand_table()
    } else {
        let gi = gate_index(graph.gates@, name);
        &&& gi >= 0
        &&& subs_cached(graph.gates@[gi].1, memo)
        &&& gate_table(graph.gates@[gi].1, cached_node_tables(graph.gates@[gi].1, memo)) == Ok::<
            TableView,
            ErrorView,
        >(t)
    }
}

/// Whether the type of every sub-gate instance of `gate` is `"nand"` or cached in `memo`.
pub open spec fn subs_ready(gate: Gate, memo: Seq<(String, TruthTable)>) -> bool {
    forall|i: int|
        0 <= i < gate.nodes@.len() ==> match (#[trigger] gate.nodes@[i]).type_ {
            Type::Internal(sub) => sub@ == nand_name() || memo_lookup(memo, sub@) is Some,
            _ => true,
        }
}

/// The table of each node of `gate`: the NAND table for an instance of
/// `"nand"`, the cached table of its type for another sub-gate instance, none
/// for a port.
pub open spec fn ready_tables(gate: Gate, memo: Seq<(String, TruthTable)>) -> Seq<TableView> {
    Seq::new(
        gate.nodes@.len(),
        |i: int|
            match gate.nodes@[i].type_ {
                Type::Internal(sub) => if sub@ == nand_name() {
                    nand_table()
                } else {
                    match memo_lookup(memo, sub@) {
                        Some(t) => t,
                        None => Seq::empty(),
                    }
                },
                _ => Seq::empty(),
            },
    )
}

/// Whether every table in the cache is the truth table of its gate type.
pub open spec fn memo_sound(graph: Graph, memo: Seq<(String, TruthTable)>) -> bool {
    forall|i: int| 0 <= i < memo.len() ==> table_fits(graph, memo, (#[trigger] memo[i]).0@, memo[i].1@)
}

/// Whether `new` keeps every table that `old` holds.
pub open spec fn memo_extends(old: Seq<(String, TruthTable)>, new: Seq<(String, TruthTable)>) -> bool {
    forall|n: Seq<char>| (#[trigger] memo_lookup(old, n)) is Some ==> memo_lookup(new, n) == memo_lookup(old, n)
}

proof fn lemma_fits_extend(
    graph: Graph,
    old: Seq<(String, TruthTable)>,
    new: Seq<(String, TruthTable)>,
    name: Seq<char>,
    t: TableView,
)
    requires
        memo_extends(old, new),
        table_fits(graph, old, name, t),
    ensures
        table_fits(graph, new, name, t),
{
    if name != nand_name() {
        let gate = graph.gates@[gate_index(graph.gates@, name)].1;
        assert forall|i: int| 0 <= i < gate.nodes@.len() implies match (#[trigger] gate.nodes@[i]).type_ {
            Type::Internal(sub) => memo_lookup(new, sub@) is Some,
            _ => true,
        } by {
            if let Type::Internal(sub) = gate.nodes@[i].type_ {
                assert(memo_lookup(old, sub@) is Some);
            }
        }
        assert forall|i: int| 0 <= i < gate.nodes@.len() implies cached_node_tables(gate, new)[i]
            == cached_node_tables(gate, old)[i] by {
            assert(subs_cached(gate, old));
            let nd = gate.nodes@[i];
            if let Type::Internal(sub) = nd.type_ {
                assert(memo_lookup(old, sub@) is Some);
            }
        }
        assert(cached_node_tables(gate, new) =~= cached_node_tables(gate, old));
    }
}

proof fn lemma_push_new(graph: Graph, memo: Seq<(String, TruthTable)>, entry: (String, TruthTable))
    requires
        memo_lookup(memo, entry.0@) is None,
        memo_sound(graph, memo),
        table_fits(graph, memo, entry.0@, entry.1@),
    ensures
        memo_extends(memo, memo.push(entry)),
        memo_sound(graph, memo.push(entry)),
        memo_lookup(memo.push(entry), entry.0@) == Some(entry.1@),
{
    let new = memo.push(entry);
    assert(new.drop_last() =~= memo);
    assert forall|n: Seq<char>| (#[trigger] memo_lookup(memo, n)) is Some implies memo_lookup(new, n)
        == memo_lookup(memo, n) by {
        assert(n != entry.0@);
    }
    assert forall|i: int| 0 <= i < new.len() implies table_fits(graph, new, (#[trigger] new[i]).0@, new[i].1@) by {
        if i < memo.len() {
            assert(new[i] == memo[i]);
            lemma_fits_extend(graph, memo, new, memo[i].0@, memo[i].1@);
        } else {
            lemma_fits_extend(graph, memo, new, entry.0@, entry.1@);
        }
    }
}

proof fn lemma_extends_trans(
    a: Seq<(String, TruthTable)>,
    b: Seq<(String, TruthTable)>,
    c: Seq<(String, TruthTable)>,
)
    requires
        memo_extends(a, b),
        memo_extends(b, c),
    ensures
        memo_extends(a, c),
{
    assert forall|n: Seq<char>| (#[trigger] memo_lookup(a, n)) is Some implies memo_lookup(c, n) == memo_lookup(a, n) by {
        assert(memo_lookup(b, n) is Some);
    }
}

/// Finds the cached table of gate type `name`.
fn find_cached(memo: &Vec<(String, TruthTable)>, name: &String) -> (r: Option<usize>)
    ensures
        r.is_none() ==> memo_lookup(memo@, name@) is None,
        r.is_some() ==> r.unwrap() < memo@.len() && memo@[r.unwrap() as int].0@ == name@
            && memo_lookup(memo@, name@) == Some(memo@[r.unwrap() as int].1@),
{
    let mut found: Option<usize> = None;
    let mut i: usize = 0;
    while i < memo.len()
        invariant
            0 <= i <= memo@.len(),
            found.is_none() ==> memo_lookup(memo@.subrange(0, i as int), name@) is None,
            found.is_some() ==> found.unwrap() < i && memo@[found.unwrap() as int].0@ == name@
                && memo_lookup(memo@.subrange(0, i as int), name@) == Some(memo@[found.unwrap() as int].1@),
        decreases memo@.len() - i,
    {
        assert(memo@.subrange(0, i as int + 1).drop_last() =~= memo@.subrange(0, i as int));
        if memo[i].0 == *name {
            found = Some(i);
        }
        i = i + 1;
    }
    assert(memo@.subrange(0, i as int) =~= memo@);
    found
}

fn empty_table() -> (r: TruthTable)
    ensures
        r@ == Seq::<(crate::ir::Assign, bool)>::empty(),
{
    let r = TruthTable { rows: Vec::new() };
    assert(r@ =~= Seq::<(crate::ir::Assign, bool)>::empty());
    r
}

/// The truth table of gate type `name`, from the cache or computed and cached;
/// `expanding` marks the registered gate types whose tables are being computed.
fn table_rec(
    graph: &Graph,
    memo: &mut Vec<(String, TruthTable)>,
    name: &String,
    expanding: &mut Vec<bool>,
) -> (r: Result<TruthTable, AnalysisError>)
    requires
        old(expanding)@.len() == graph.gates@.len(),
        memo_sound(*graph, old(memo)@),
    ensures
        final(expanding)@.len() == graph.gates@.len(),
        r is Ok ==> final(expanding)@ == old(expanding)@,
        memo_sound(*graph, final(memo)@),
        memo_extends(old(memo)@, final(memo)@),
        r is Ok ==> memo_lookup(final(memo)@, name@) == Some(r->Ok_0@),
        memo_lookup(old(memo)@, name@) is Some ==> r is Ok && final(memo)@ == old(memo)@,
        memo_lookup(old(memo)@, name@) is None && name@ != nand_name() && gate_index(graph.gates@, name@) < 0
            ==> r == Err::<TruthTable, AnalysisError>(AnalysisError::UnknownGate(*name)),
        name@ == nand_name() ==> r is Ok && r->Ok_0@ == nand_table(),
        name@ == nand_name() ==> forall|m: Seq<char>|
            m != nand_name() ==> #[trigger] memo_lookup(final(memo)@, m) == memo_lookup(old(memo)@, m),
        ({
            let gi = gate_index(graph.gates@, name@);
            memo_lookup(old(memo)@, name@) is None && name@ != nand_name() && gi >= 0 ==> {
                &&& old(expanding)@[gi] ==> r == Err::<TruthTable, AnalysisError>(
                    AnalysisError::RecursiveGateType(*name),
                )
                &&& !old(expanding)@[gi] && graph.gates@[gi].1.inputs@.len() >= 64 ==> r == Err::<
                    TruthTable,
                    AnalysisError,
                >(AnalysisError::TooManyInputs(*name))
                &&& !old(expanding)@[gi] && graph.gates@[gi].1.inputs@.len() < 64 && subs_ready(
                    graph.gates@[gi].1,
                    old(memo)@,
                ) ==> table_result_view(r) == gate_table(
                    graph.gates@[gi].1,
                    ready_tables(graph.gates@[gi].1, old(memo)@),
                )
            }
        }),
    decreases count_false(old(expanding)@),
{
    if let Some(at) = find_cached(memo, name) {
        proof {
            lemma_lookup_fits(*graph, memo@, name@);
        }
        return Ok(copy_table(&memo[at].1));
    }
    if is_nand(name) {
        let t = nand_truth_table();
        let ghost before = memo@;
        let entry = (name.clone(), copy_table(&t));
        proof {
            lemma_push_new(*graph, before, entry);
            assert forall|m: Seq<char>| m != nand_name() implies #[trigger] memo_lookup(before.push(entry), m)
                == memo_lookup(before, m) by {
                assert(before.push(entry).drop_last() =~= before);
            }
        }
        memo.push(entry);
        return Ok(t);
    }
    let idx = match find_gate(graph, name) {
        None => {
            return Err(AnalysisError::UnknownGate(name.clone()));
        },
        Some(idx) => idx,
    };
    if expanding[idx] {
        return Err(AnalysisError::RecursiveGateType(name.clone()));
    }
    let gate = &graph.gates[idx].1;
    if gate.inputs.len() >= 64 {
        return Err(AnalysisError::TooManyInputs(name.clone()));
    }
    let ghost entry_expanding = expanding@;
    let ghost entry_memo = memo@;
    expanding.set(idx, true);
    proof {
        lemma_count_false_set(entry_expanding, idx as int);
    }
    let mut tables: Vec<TruthTable> = Vec::new();
    let mut i: usize = 0;
    while i < gate.nodes.len()
        invariant
            0 <= i <= gate.nodes@.len(),
            tables@.len() == i,
            *gate == graph.gates@[idx as int].1,
            idx < graph.gates@.len(),
            expanding@ == entry_expanding.update(idx as int, true),
            count_false(expanding@) < count_false(entry_expanding),
            entry_expanding.len() == graph.gates@.len(),
            memo_sound(*graph, memo@),
            memo_extends(entry_memo, memo@),
            entry_expanding == old(expanding)@,
            entry_memo == old(memo)@,
            memo_lookup(entry_memo, name@) is None,
            name@ != nand_name(),
            gate_index(graph.gates@, name@) == idx as int,
            !entry_expanding[idx as int],
            gate.inputs@.len() < 64,
            subs_ready(*gate, entry_memo) ==> forall|m: Seq<char>|
                m != nand_name() ==> #[trigger] memo_lookup(memo@, m) == memo_lookup(entry_memo, m),
            subs_ready(*gate, entry_memo) ==> forall|t: int|
                0 <= t < i ==> tables@[t]@ == #[trigger] ready_tables(*gate, entry_memo)[t],
            forall|t: int|
                0 <= t < i ==> match (#[trigger] gate.nodes@[t]).type_ {
                    Type::Internal(sub) => memo_lookup(memo@, sub@) == Some(tables@[t]@),
                    _ => tables@[t]@ == Seq::<(crate::ir::Assign, bool)>::empty(),
                },
        decreases gate.nodes@.len() - i,
    {
        let ghost memo_before = memo@;
        match &gate.nodes[i].type_ {
            Type::Internal(sub) => {
                let ghost ready = subs_ready(*gate, entry_memo);
                proof {
                    if ready {
                        assert(gate.nodes@[i as int].type_ == Type::Internal(*sub));
                        if sub@ != nand_name() {
                            assert(memo_lookup(entry_memo, sub@) is Some);
                            assert(memo_lookup(memo_before, sub@) == memo_lookup(entry_memo, sub@));
                        }
                    }
                }
                let t = match table_rec(graph, memo, sub, expanding) {
                    Ok(t) => t,
                    Err(e) => {
                        proof {
                            lemma_extends_trans(entry_memo, memo_before, memo@);
                            assert(!ready);
                        }
                        return Err(e);
                    },
                };
                proof {
                    lemma_extends_trans(entry_memo, memo_before, memo@);
                    if ready {
                        assert forall|m: Seq<char>| m != nand_name() implies #[trigger] memo_lookup(memo@, m)
                            == memo_lookup(entry_memo, m) by {
                            assert(memo_lookup(memo_before, m) == memo_lookup(entry_memo, m));
                        }
                        if sub@ == nand_name() {
                            assert(t@ == nand_table());
                        } else {
                            assert(memo@ == memo_before);
                        }
                        assert(t@ == ready_tables(*gate, entry_memo)[i as int]);
                    }
                }
                assert forall|t: int|
                    0 <= t < i implies match (#[trigger] gate.nodes@[t]).type_ {
                        Type::Internal(sub) => memo_lookup(memo@, sub@) == Some(tables@[t]@),
                        _ => tables@[t]@ == Seq::<(crate::ir::Assign, bool)>::empty(),
                    } by {
                    if let Type::Internal(s2) = gate.nodes@[t].type_ {
                        assert(memo_lookup(memo_before, s2@) is Some);
                    }
                }
                tables.push(t);
            },
            _ => {
                tables.push(empty_table());
            },
        }
        i = i + 1;
    }
    expanding.set(idx, false);
    assert(expanding@ =~= entry_expanding);
    proof {
        assert(tables_view(tables@) =~= cached_node_tables(*gate, memo@));
        lemma_gate_index_bounds(graph.gates@, name@);
        if subs_ready(*gate, entry_memo) {
            assert(tables_view(tables@) =~= ready_tables(*gate, entry_memo));
            assert(memo_lookup(memo@, name@) == memo_lookup(entry_memo, name@));
        }
    }
    let t = synthesize(gate, &tables)?;
    if let Some(at) = find_cached(memo, name) {
        return Ok(copy_table(&memo[at].1));
    }
    let ghost before = memo@;
    let entry = (name.clone(), copy_table(&t));
    proof {
        lemma_push_new(*graph, before, entry);
    }
    memo.push(entry);
    Ok(t)
}

proof fn lemma_lookup_fits(graph: Graph, memo: Seq<(String, TruthTable)>, name: Seq<char>)
    requires
        memo_sound(graph, memo),
        memo_lookup(memo, name) is Some,
    ensures
        table_fits(graph, memo, name, memo_lookup(memo, name)->Some_0),
{
    lemma_lookup_entry(memo, name);
    let i = choose|i: int| 0 <= i < memo.len() && memo[i].0@ == name && memo[i].1@ == memo_lookup(memo, name)->Some_0;
    assert(table_fits(graph, memo, memo[i].0@, memo[i].1@));
}

proof fn lemma_lookup_entry(memo: Seq<(String, TruthTable)>, name: Seq<char>)
    requires
        memo_lookup(memo, name) is Some,
    ensures
        exists|i: int| 0 <= i < memo.len() && memo[i].0@ == name && memo[i].1@ == memo_lookup(memo, name)->Some_0,
    decreases memo.len(),
{
    if memo.last().0@ == name {
        assert(memo[memo.len() - 1].0@ == name);
    } else {
        lemma_lookup_entry(memo.drop_last(), name);
        let i = choose|i: int| 0 <= i < memo.drop_last().len() && memo.drop_last()[i].0@ == name
            && memo.drop_last()[i].1@ == memo_lookup(memo.drop_last(), name)->Some_0;
        assert(memo[i] == memo.drop_last()[i]);
    }
}

/// Computes the truth table of gate type `gate_name` of `graph`, caching in
/// `precalculated` the table of every gate type it computes on the way, and
/// taking from it any table it already holds: a second request for the same
/// gate type returns the cached table and leaves the cache as it is.
///
/// The table of `"nand"` is its four fixed rows. The table of a registered gate
/// is the one `synthesize` builds from the tables of its sub-gate types; when
/// these are all `"nand"` or cached already, the result is exactly that table,
/// or the error that building it meets. A gate type that is neither `"nand"`
/// nor registered fails with `UnknownGate`; one with 64 inputs or more with
/// `TooManyInputs`; one that contains itself, directly or through other gate
/// types, with `RecursiveGateType`.
pub fn truth_table(graph: &Graph, precalculated: &mut Vec<(String, TruthTable)>, gate_name: &String) -> (r:
    Result<TruthTable, AnalysisError>)
    requires
        memo_sound(*graph, old(precalculated)@),
    ensures
        memo_sound(*graph, final(precalculated)@),
        memo_extends(old(precalculated)@, final(precalculated)@),
        r is Ok ==> memo_lookup(final(precalculated)@, gate_name@) == Some(r->Ok_0@),
        r is Ok ==> table_fits(*graph, final(precalculated)@, gate_name@, r->Ok_0@),
        memo_lookup(old(precalculated)@, gate_name@) is Some ==> r is Ok && final(precalculated)@ == old(
            precalculated,
        )@ && memo_lookup(old(precalculated)@, gate_name@) == Some(r->Ok_0@),
        gate_name@ == nand_name() ==> r is Ok && r->Ok_0@ == nand_table(),
        memo_lookup(old(precalculated)@, gate_name@) is None && gate_name@ != nand_name() && gate_index(
            graph.gates@,
            gate_name@,
        ) < 0 ==> r == Err::<TruthTable, AnalysisError>(AnalysisError::UnknownGate(*gate_name)),
        ({
            let gi = gate_index(graph.gates@, gate_name@);
            memo_lookup(old(precalculated)@, gate_name@) is None && gate_name@ != nand_name() && gi >= 0 ==> {
                &&& graph.gates@[gi].1.inputs@.len() >= 64 ==> r == Err::<TruthTable, AnalysisError>(
                    AnalysisError::TooManyInputs(*gate_name),
                )
                &&& graph.gates@[gi].1.inputs@.len() < 64 && subs_ready(graph.gates@[gi].1, old(precalculated)@)
                    ==> table_result_view(r) == gate_table(
                    graph.gates@[gi].1,
                    ready_tables(graph.gates@[gi].1, old(precalculated)@),
                )
            }
        }),
{
    let mut expanding: Vec<bool> = Vec::new();
    let mut i: usize = 0;
    while i < graph.gates.len()
        invariant
            0 <= i <= graph.gates@.len(),
            expanding@.len() == i,
            forall|t: int| 0 <= t < i ==> !(#[trigger] expanding@[t]),
        decreases graph.gates@.len() - i,
    {
        expanding.push(false);
        i = i + 1;
    }
    let r = table_rec(graph, precalculated, gate_name, &mut expanding);
    proof {
        lemma_gate_index_bounds(graph.gates@, gate_name@);
        if r is Ok {
            lemma_lookup_fits(*graph, precalculated@, gate_name@);
        }
    }
    r
}

} // verus!
