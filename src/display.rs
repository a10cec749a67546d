//! The rendering of a truth table as text.
use vstd::prelude::*;
use vstd::arithmetic::power2::pow2;
use crate::ir::{Assign, Gate, assign_view};
use crate::inputs::{all_inputs, assignment};
use crate::table::{TableView, TruthTable};

verus! {

/// The strings of `parts` with `sep` between each two consecutive ones.
pub open spec fn joined(parts: Seq<Seq<char>>, sep: Seq<char>) -> Seq<char>
    decreases parts.len(),
{
    if parts.len() == 0 {
        Seq::empty()
    } else if parts.len() == 1 {
        parts[0]
    } else {
        joined(parts.drop_last(), sep) + sep + parts.last()
    }
}

pub open spec fn comma() -> Seq<char> {
    seq![',']
}

pub open spec fn arrow() -> Seq<char> {
    seq![' ', '-', '>', ' ']
}

pub open spec fn newline() -> Seq<char> {
    seq!['\n']
}

pub open spec fn bit_text(b: bool) -> Seq<char> {
    if b {
        seq!['1']
    } else {
        seq!['0']
    }
}

pub open spec fn names_view(names: Seq<String>) -> Seq<Seq<char>> {
    names.map_values(|s: String| s@)
}

/// The output that `t` gives for the assignment `a` (its last row for `a`), if any.
pub open spec fn table_value(t: TableView, a: Assign) -> Option<bool>
    decreases t.len(),
{
    if t.len() == 0 {
        None
    } else if t.last().0 == a {
        Some(t.last().1)
    } else {
        table_value(t.drop_last(), a)
    }
}

/// The line of a row: its input values as `0` or `1`, separated by commas,
/// then ` -> ` and its output.
pub open spec fn row_line(a: Assign, out: bool) -> Seq<char> {
    joined(seq![joined(a.map_values(|e: (Seq<char>, bool)| bit_text(e.1)), comma()), bit_text(out)], arrow())
}

/// The lines of the first `n` assignments to `inputs` whose output `t` defines.
pub open spec fn row_lines(inputs: Seq<String>, t: TableView, n: nat) -> Seq<Seq<char>>
    decreases n,
{
    if n == 0 {
        Seq::empty()
    } else {
        let a = assignment(inputs, (n - 1) as nat);
        row_lines(inputs, t, (n - 1) as nat) + match table_value(t, a) {
            Some(o) => seq![row_line(a, o)],
            None => Seq::empty(),
        }
    }
}

/// The rendering of `t` as the table of `gate`: a header of the names of its
/// inputs separated by commas, then one line per assignment that `t` defines,
/// in the canonical order, lines separated by newlines.
pub open spec fn rendering(gate: Gate, t: TableView) -> Seq<char> {
    joined(
        seq![joined(names_view(gate.inputs@), comma())] + row_lines(
            gate.inputs@,
            t,
            pow2(gate.inputs@.len() as nat),
        ),
        newline(),
    )
}

/// Relies on `itertools::Itertools::intersperse`, which yields the items of the
/// iterator in order with a copy of the separator between each two of them;
/// collecting the pieces into a `String` concatenates them.
#[verifier::external_body]
fn join_with(parts: &Vec<String>, sep: &str) -> (r: String)
    ensures
        r@ == joined(names_view(parts@), sep@),
{
    itertools::Itertools::intersperse(parts.iter().map(|s| s.as_str()), sep).collect()
}

fn bit_string(b: bool) -> (r: String)
    ensures
        r@ == bit_text(b),
{
    proof {
        reveal_strlit("1");
        reveal_strlit("0");
    }
    if b {
        let s = "1".to_owned();
        assert(s@ =~= bit_text(b));
        s
    } else {
        let s = "0".to_owned();
        assert(s@ =~= bit_text(b));
        s
    }
}

/// Whether two assignments are the same, entry by entry.
fn same_assign(a: &Vec<(String, bool)>, b: &Vec<(String, bool)>) -> (r: bool)
    ensures
        r == (assign_view(a@) == assign_view(b@)),
{
    if a.len() != b.len() {
        assert(assign_view(a@).len() != assign_view(b@).len());
        return false;
    }
    let mut i: usize = 0;
    while i < a.len()
        invariant
            0 <= i <= a@.len(),
            a@.len() == b@.len(),
            forall|j: int| 0 <= j < i ==> #[trigger] assign_view(a@)[j] == assign_view(b@)[j],
        decreases a@.len() - i,
    {
        if a[i].0 != b[i].0 || a[i].1 != b[i].1 {
            assert(assign_view(a@)[i as int] != assign_view(b@)[i as int]);
            return false;
        }
        i = i + 1;
    }
    assert(assign_view(a@) =~= assign_view(b@));
    true
}

/// The output that `t` gives for the assignment `a`.
fn find_row(t: &TruthTable, a: &Vec<(String, bool)>) -> (r: Option<bool>)
    ensures
        r == table_value(t@, assign_view(a@)),
{
    let ghost tv = t@;
    let mut res: Option<bool> = None;
    let mut i: usize = 0;
    while i < t.rows.len()
        invariant
            0 <= i <= t.rows@.len(),
            tv == t@,
            res == table_value(tv.subrange(0, i as int), assign_view(a@)),
        decreases t.rows@.len() - i,
    {
        assert(tv.subrange(0, i as int + 1).drop_last() =~= tv.subrange(0, i as int));
        assert(tv[i as int].0 == assign_view(t.rows@[i as int].0@));
        if same_assign(&t.rows[i].0, a) {
            res = Some(t.rows[i].1);
        }
        i = i + 1;
    }
    assert(tv.subrange(0, i as int) =~= tv);
    res
}

/// The line of the row that assigns `a` and gives `out`.
fn render_row(a: &Vec<(String, bool)>, out: bool) -> (r: String)
    ensures
        r@ == row_line(assign_view(a@), out),
{
    let mut bits: Vec<String> = Vec::new();
    let mut i: usize = 0;
    while i < a.len()
        invariant
            0 <= i <= a@.len(),
            bits@.len() == i,
            names_view(bits@) == assign_view(a@).subrange(0, i as int).map_values(
                |e: (Seq<char>, bool)| bit_text(e.1),
            ),
        decreases a@.len() - i,
    {
        let ghost old_bits = bits@;
        let ghost before = names_view(bits@);
        bits.push(bit_string(a[i].1));
        i = i + 1;
        let ghost want = assign_view(a@).subrange(0, i as int).map_values(|e: (Seq<char>, bool)| bit_text(e.1));
        let ghost prev = assign_view(a@).subrange(0, i as int - 1).map_values(|e: (Seq<char>, bool)| bit_text(e.1));
        assert forall|j: int| 0 <= j < i implies #[trigger] names_view(bits@)[j] == want[j] by {
            if j < i - 1 {
                assert(bits@[j] == old_bits[j]);
                assert(names_view(bits@)[j] == before[j]);
                assert(want[j] == prev[j]);
            }
        }
        assert(names_view(bits@) =~= assign_view(a@).subrange(0, i as int).map_values(
            |e: (Seq<char>, bool)| bit_text(e.1),
        ));
    }
    assert(assign_view(a@).subrange(0, i as int) =~= assign_view(a@));
    proof {
        reveal_strlit(",");
        reveal_strlit(" -> ");
    }
    assert(","@ =~= comma());
    assert(" -> "@ =~= arrow());
    let values = join_with(&bits, ",");
    let pieces = vec![values, bit_string(out)];
    let ghost vv = pieces@[0]@;
    assert(names_view(pieces@) =~= seq![vv, bit_text(out)]);
    join_with(&pieces, " -> ")
}

/// Renders `truth_table` as the table of `gate`: a header of the names of its
/// inputs separated by commas, then, in the canonical order of the
/// assignments, one line per assignment whose output the table defines, its
/// input values as `0` or `1` separated by commas, then ` -> ` and the output.
pub fn display_truth_table(gate: &Gate, truth_table: &TruthTable) -> (r: String)
    requires
        gate.inputs@.len() < 64,
    ensures
        r@ == rendering(*gate, truth_table@),
{
    proof {
        reveal_strlit(",");
        reveal_strlit("\n");
    }
    assert(","@ =~= comma());
    assert("\n"@ =~= newline());
    let rows = all_inputs(gate);
    let mut lines: Vec<String> = Vec::new();
    lines.push(join_with(&gate.inputs, ","));
    let ghost header = joined(names_view(gate.inputs@), comma());
    assert(names_view(lines@) =~= seq![header] + row_lines(gate.inputs@, truth_table@, 0));
    let mut n: usize = 0;
    while n < rows.len()
        invariant
            0 <= n <= rows@.len(),
            rows@.len() == pow2(gate.inputs@.len() as nat),
            forall|m: int| 0 <= m < rows@.len() ==> assign_view(#[trigger] rows@[m]@) == assignment(gate.inputs@, m as nat),
            header == joined(names_view(gate.inputs@), comma()),
            names_view(lines@) == seq![header] + row_lines(gate.inputs@, truth_table@, n as nat),
        decreases rows@.len() - n,
    {
        let ghost before = names_view(lines@);
        let ghost a = assignment(gate.inputs@, n as nat);
        assert(assign_view(rows@[n as int]@) == a);
        match find_row(truth_table, &rows[n]) {
            Some(out) => {
                lines.push(render_row(&rows[n], out));
                assert(names_view(lines@) =~= before + seq![row_line(a, out)]);
            },
            None => {
                assert(before + Seq::<Seq<char>>::empty() =~= before);
            },
        }
        n = n + 1;
    }
    join_with(&lines, "\n")
}

} // verus!
