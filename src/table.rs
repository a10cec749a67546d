//! Truth tables, the NAND primitive, and the resolution of a sub-gate's output
//! from a partial knowledge of its inputs.
use vstd::prelude::*;
use crate::ir::{Assign, assign_view, lookup, lookup_port};

verus! {

/// A partial map from input assignments to the output bit. An assignment that
/// is absent has an undefined output.
#[derive(Debug)]
pub struct TruthTable {
    pub rows: Vec<(Vec<(String, bool)>, bool)>,
}

/// A truth table as seen by contracts.
pub type TableView = Seq<(Assign, bool)>;

impl View for TruthTable {
    type V = TableView;

    open spec fn view(&self) -> TableView {
        self.rows@.map_values(|r: (Vec<(String, bool)>, bool)| (assign_view(r.0@), r.1))
    }
}

/// Whether the row assignment `row` agrees with every value known in `known`.
pub open spec fn consistent(row: Assign, known: Assign) -> bool {
    forall|i: int| 0 <= i < known.len() ==> lookup(row, #[trigger] known[i].0) == Some(known[i].1)
}

/// Whether some row of `t` consistent with `known` has output `b`.
pub open spec fn has_output(t: TableView, known: Assign, b: bool) -> bool {
    exists|i: int| 0 <= i < t.len() && #[trigger] consistent(t[i].0, known) && t[i].1 == b
}

/// The output that `known` already decides: the one output shared by all rows
/// of `t` consistent with it, if there is at least one such row.
pub open spec fn resolve(t: TableView, known: Assign) -> Option<bool> {
    if has_output(t, known, true) && !has_output(t, known, false) {
        Some(true)
    } else if has_output(t, known, false) && !has_output(t, known, true) {
        Some(false)
    } else {
        None
    }
}

pub open spec fn x_name() -> Seq<char> {
    seq!['x']
}

pub open spec fn y_name() -> Seq<char> {
    seq!['y']
}

/// The table of the NAND primitive, over ports `x` and `y`.
pub open spec fn nand_table() -> TableView {
    seq![
        (seq![(x_name(), false), (y_name(), false)], true),
        (seq![(x_name(), false), (y_name(), true)], true),
        (seq![(x_name(), true), (y_name(), false)], true),
        (seq![(x_name(), true), (y_name(), true)], false),
    ]
}

fn nand_row(x: bool, y: bool) -> (r: (Vec<(String, bool)>, bool))
    ensures
        assign_view(r.0@) == seq![(x_name(), x), (y_name(), y)],
        r.1 == !(x && y),
{
    let xs = "x".to_owned();
    let ys = "y".to_owned();
    proof {
        reveal_strlit("x");
        reveal_strlit("y");
    }
    assert(xs@ =~= x_name());
    assert(ys@ =~= y_name());
    let v = vec![(xs, x), (ys, y)];
    assert(assign_view(v@) =~= seq![(x_name(), x), (y_name(), y)]);
    (v, !(x && y))
}

/// The truth table of the NAND primitive: exactly its four rows.
pub fn nand_truth_table() -> (r: TruthTable)
    ensures
        r@ == nand_table(),
        r@.len() == 4,
{
    let r0 = nand_row(false, false);
    let r1 = nand_row(false, true);
    let r2 = nand_row(true, false);
    let r3 = nand_row(true, true);
    let t = TruthTable { rows: vec![r0, r1, r2, r3] };
    assert(t@ =~= nand_table());
    t
}

/// Copies an assignment entry by entry.
pub fn copy_assign(a: &Vec<(String, bool)>) -> (r: Vec<(String, bool)>)
    ensures
        r@ == a@,
{
    let mut r: Vec<(String, bool)> = Vec::new();
    let mut i: usize = 0;
    while i < a.len()
        invariant
            0 <= i <= a@.len(),
            r@ == a@.subrange(0, i as int),
        decreases a@.len() - i,
    {
        r.push((a[i].0.clone(), a[i].1));
        i = i + 1;
        assert(r@ =~= a@.subrange(0, i as int));
    }
    assert(a@.subrange(0, i as int) =~= a@);
    r
}

/// Copies a truth table row by row.
pub fn copy_table(t: &TruthTable) -> (r: TruthTable)
    ensures
        r@ == t@,
{
    let mut rows: Vec<(Vec<(String, bool)>, bool)> = Vec::new();
    let mut i: usize = 0;
    while i < t.rows.len()
        invariant
            0 <= i <= t.rows@.len(),
            rows@.len() == i,
            forall|j: int| 0 <= j < i ==> #[trigger] rows@[j].0@ == t.rows@[j].0@ && rows@[j].1 == t.rows@[j].1,
        decreases t.rows@.len() - i,
    {
        rows.push((copy_assign(&t.rows[i].0), t.rows[i].1));
        i = i + 1;
    }
    let r = TruthTable { rows };
    assert(r@ =~= t@);
    r
}

/// Whether the assignment `row` agrees with every value in `known`.
pub fn is_consistent(row: &Vec<(String, bool)>, known: &Vec<(String, bool)>) -> (r: bool)
    ensures
        r == consistent(assign_view(row@), assign_view(known@)),
{
    let ghost kv = assign_view(known@);
    let mut i: usize = 0;
    while i < known.len()
        invariant
            0 <= i <= known@.len(),
            kv == assign_view(known@),
            forall|j: int| 0 <= j < i ==> lookup(assign_view(row@), #[trigger] kv[j].0) == Some(kv[j].1),
        decreases known@.len() - i,
    {
        if lookup_port(row, &known[i].0) != Some(known[i].1) {
            assert(lookup(assign_view(row@), kv[i as int].0) != Some(kv[i as int].1));
            return false;
        }
        i = i + 1;
    }
    true
}

/// The output of a gate with table `table` that the port values in `known`
/// already decide, whatever the values of its other ports: `Some(b)` when at
/// least one row of the table is consistent with `known` and all such rows have
/// output `b`, and `None` when no row is consistent or two of them disagree.
pub fn calculate_value(table: &TruthTable, known: &Vec<(String, bool)>) -> (r: Option<bool>)
    ensures
        r == resolve(table@, assign_view(known@)),
{
    let ghost tv = table@;
    let ghost kv = assign_view(known@);
    let mut seen_true = false;
    let mut seen_false = false;
    let mut i: usize = 0;
    while i < table.rows.len()
        invariant
            0 <= i <= table.rows@.len(),
            tv == table@,
            kv == assign_view(known@),
            seen_true == exists|j: int| 0 <= j < i && #[trigger] consistent(tv[j].0, kv) && tv[j].1,
            seen_false == exists|j: int| 0 <= j < i && #[trigger] consistent(tv[j].0, kv) && !tv[j].1,
        decreases table.rows@.len() - i,
    {
        let c = is_consistent(&table.rows[i].0, known);
        let ghost k = i as int;
        assert(tv[k].0 == assign_view(table.rows@[k].0@) && tv[k].1 == table.rows@[k].1);
        if c {
            if table.rows[i].1 {
                seen_true = true;
            } else {
                seen_false = true;
            }
        }
        i = i + 1;
        assert(seen_true == exists|j: int| 0 <= j < i && #[trigger] consistent(tv[j].0, kv) && tv[j].1) by {
            if c && tv[k].1 {
                assert(consistent(tv[k].0, kv));
            }
        }
        assert(seen_false == exists|j: int| 0 <= j < i && #[trigger] consistent(tv[j].0, kv) && !tv[j].1) by {
            if c && !tv[k].1 {
                assert(consistent(tv[k].0, kv));
            }
        }
    }
    if seen_true && !seen_false {
        assert(has_output(tv, kv, true));
        Some(true)
    } else if seen_false && !seen_true {
        assert(has_output(tv, kv, false));
        Some(false)
    } else {
        None
    }
}

} // verus!
