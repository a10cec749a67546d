//! Analysis of hierarchical boolean circuits built from NAND gates: a check
//! that a gate's wiring holds no combinational loop, and the synthesis of the
//! truth table of a gate by memoised constraint propagation.

pub mod ir;
pub mod table;
pub mod inputs;
pub mod propagate;
pub mod synth;
pub mod analyser;
pub mod cycle;
pub mod display;

pub use ir::{AnalysisError, Edge, Gate, Graph, Node, Type};
pub use table::{TruthTable, calculate_value, nand_truth_table};
pub use inputs::all_inputs;
pub use propagate::evaluate_row;
pub use synth::synthesize;
pub use analyser::truth_table;
pub use cycle::loop_free;
pub use display::display_truth_table;
