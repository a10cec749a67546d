//! The truth table of a composite gate, given the tables of its nodes.
use vstd::prelude::*;
use vstd::arithmetic::power2::pow2;
use crate::ir::{Assign, AnalysisError, ErrorView, Gate, assign_view};
use crate::inputs::{all_inputs, enumeration};
use crate::propagate::{evaluate_row, row_output, tables_view};
use crate::table::{TableView, TruthTable, copy_assign};

verus! {

/// The table built from the rows `rows`, in order: each row whose output is
/// defined, with that output; or the error of the first row that fails.
pub open spec fn table_of_rows(gate: Gate, tables: Seq<TableView>, rows: Seq<Assign>) -> Result<
    TableView,
    ErrorView,
>
    decreases rows.len(),
{
    if rows.len() == 0 {
        Ok(Seq::empty())
    } else {
        match table_of_rows(gate, tables, rows.drop_last()) {
            Err(e) => Err(e),
            Ok(t) => match row_output(gate, tables, rows.last()) {
                Err(e) => Err(e),
                Ok(None) => Ok(t),
                Ok(Some(b)) => Ok(t.push((rows.last(), b))),
            },
        }
    }
}

/// The truth table of `gate` over all assignments to its inputs, in the
/// canonical order, given the table of each of its nodes.
pub open spec fn gate_table(gate: Gate, tables: Seq<TableView>) -> Result<TableView, ErrorView> {
    table_of_rows(gate, tables, enumeration(gate.inputs@))
}

pub open spec fn table_result_view(r: Result<TruthTable, AnalysisError>) -> Result<TableView, ErrorView> {
    match r {
        Ok(t) => Ok(t@),
        Err(e) => Err(e@),
    }
}

/// Computes the truth table of `gate` over all assignments to its inputs, in
/// the canonical order, leaving out the rows whose output is undefined.
/// `tables` holds the table of each node of `gate` (used for sub-gate instances).
pub fn synthesize(gate: &Gate, tables: &Vec<TruthTable>) -> (r: Result<TruthTable, AnalysisError>)
    requires
        tables@.len() == gate.nodes@.len(),
        gate.inputs@.len() < 64,
    ensures
        table_result_view(r) == gate_table(*gate, tables_view(tables@)),
{
    let ghost tv = tables_view(tables@);
    let ghost en = enumeration(gate.inputs@);
    let rows = all_inputs(gate);
    let mut out: Vec<(Vec<(String, bool)>, bool)> = Vec::new();
    let mut i: usize = 0;
    assert((TruthTable { rows: out })@ =~= Seq::<(Assign, bool)>::empty());
    assert(table_of_rows(*gate, tv, en.subrange(0, 0)) == Ok::<TableView, ErrorView>(Seq::empty()));
    while i < rows.len()
        invariant
            0 <= i <= rows@.len(),
            rows@.len() == en.len(),
            en == enumeration(gate.inputs@),
            rows@.map_values(|a: Vec<(String, bool)>| assign_view(a@)) == en,
            tv == tables_view(tables@),
            tables@.len() == gate.nodes@.len(),
            table_of_rows(*gate, tv, en.subrange(0, i as int)) == Ok::<TableView, ErrorView>(
                (TruthTable { rows: out })@,
            ),
        decreases rows@.len() - i,
    {
        assert(en.subrange(0, i as int + 1).drop_last() =~= en.subrange(0, i as int));
        assert(en[i as int] == assign_view(rows@[i as int]@));
        assert(en.subrange(0, i as int + 1).last() == en[i as int]);
        match evaluate_row(gate, tables, &rows[i]) {
            Err(e) => {
                proof {
                    assert(table_of_rows(*gate, tv, en.subrange(0, i as int + 1)) == Err::<TableView, ErrorView>(e@));
                    lemma_error_persists(*gate, tv, en, i as int + 1, en.len() as int);
                    assert(en.subrange(0, en.len() as int) =~= en);
                }
                return Err(e);
            },
            Ok(None) => {},
            Ok(Some(b)) => {
                let ghost before = (TruthTable { rows: out })@;
                out.push((copy_assign(&rows[i]), b));
                assert((TruthTable { rows: out })@ =~= before.push((en[i as int], b)));
            },
        }
        i = i + 1;
    }
    assert(en.subrange(0, i as int) =~= en);
    Ok(TruthTable { rows: out })
}

proof fn lemma_error_persists(gate: Gate, tables: Seq<TableView>, en: Seq<Assign>, i: int, j: int)
    requires
        0 <= i <= j <= en.len(),
        table_of_rows(gate, tables, en.subrange(0, i)) is Err,
    ensures
        table_of_rows(gate, tables, en.subrange(0, j)) == table_of_rows(gate, tables, en.subrange(0, i)),
    decreases j - i,
{
    if i < j {
        lemma_error_persists(gate, tables, en, i, j - 1);
        assert(en.subrange(0, j).drop_last() =~= en.subrange(0, j - 1));
    }
}

/// Whether `pos` gives, for each row of `t`, the position in `rows` of its
/// assignment, the positions increasing.
pub open spec fn ordered_positions(t: TableView, rows: Seq<Assign>, pos: Seq<int>) -> bool {
    &&& pos.len() == t.len()
    &&& forall|i: int| 0 <= i < t.len() ==> 0 <= #[trigger] pos[i] < rows.len() && t[i].0 == rows[pos[i]]
    &&& forall|i: int, j: int| 0 <= i < j < t.len() ==> #[trigger] pos[i] < #[trigger] pos[j]
}

proof fn lemma_rows_from(gate: Gate, tables: Seq<TableView>, rows: Seq<Assign>)
    requires
        table_of_rows(gate, tables, rows) is Ok,
    ensures
        table_of_rows(gate, tables, rows)->Ok_0.len() <= rows.len(),
        exists|pos: Seq<int>| ordered_positions(table_of_rows(gate, tables, rows)->Ok_0, rows, pos),
    decreases rows.len(),
{
    let t = table_of_rows(gate, tables, rows)->Ok_0;
    if rows.len() == 0 {
        assert(ordered_positions(t, rows, Seq::empty()));
    } else {
        let prev = rows.drop_last();
        lemma_rows_from(gate, tables, prev);
        let t0 = table_of_rows(gate, tables, prev)->Ok_0;
        let pos0 = choose|pos: Seq<int>| ordered_positions(t0, prev, pos);
        if t.len() == t0.len() {
            assert(t == t0);
            assert(ordered_positions(t, rows, pos0));
        } else {
            let pos = pos0.push(rows.len() - 1);
            assert(t == t0.push((rows.last(), t[t.len() - 1].1)));
            assert(ordered_positions(t, rows, pos));
        }
    }
}

/// A synthesised table has at most one row per assignment to the inputs: at
/// most `2^k` rows for `k` inputs, each the assignment at some position of the
/// canonical enumeration, at increasing positions.
pub proof fn lemma_table_rows_are_assignments(gate: Gate, tables: Seq<TableView>)
    requires
        gate_table(gate, tables) is Ok,
    ensures
        ({
            let t = gate_table(gate, tables)->Ok_0;
            let en = enumeration(gate.inputs@);
            &&& t.len() <= pow2(gate.inputs@.len() as nat)
            &&& exists|pos: Seq<int>| ordered_positions(t, en, pos)
        }),
{
    lemma_rows_from(gate, tables, enumeration(gate.inputs@));
}

} // verus!
