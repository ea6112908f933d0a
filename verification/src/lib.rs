//! A verified parser for the Berkeley Logic Interchange Format (BLIF).
//!
//! The library turns the text of a BLIF netlist into a typed abstract
//! syntax tree: modules with primary inputs and outputs, lookup tables,
//! technology-mapped sequential gates, latches, and subcircuit
//! instantiations.  Every parsing function carries a contract that pins
//! its result down as a function of the input text.

pub mod text;
pub mod conns;
pub mod primitives;
pub mod stmt;
pub mod parser;
