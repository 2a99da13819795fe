//! Boolean expressions and three things derived from them: the exhaustive
//! truth table, the Karnaugh map, and a netlist of gates laid out in layers.
//!
//! - [`expr`]: the expression tree and its model;
//! - [`parser`]: the grammar and the parser, [`written`]: that the parser
//!   reads back what is written in the grammar;
//! - [`eval`]: assignments and evaluation;
//! - [`names`]: the order of variable names;
//! - [`truth_table`]: the variables of an expression and its truth table;
//! - [`k_map`]: Gray codes and the Karnaugh map;
//! - [`logic_gates`]: the netlist and its layout, [`layering`]: the layers
//!   of a circuit;
//! - [`sequences`], [`text`]: sequences without repetition, and the texts
//!   that a table shows.

pub mod expr;
pub mod eval;
pub mod parser;
pub mod written;
pub mod sequences;
pub mod names;
pub mod text;
pub mod truth_table;
pub mod k_map;
pub mod logic_gates;
pub mod layering;
