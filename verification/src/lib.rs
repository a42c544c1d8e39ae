//! An interaction-net reducer for an affine lambda calculus with labelled
//! superposition and duplication nodes.
//!
//! Terms are built into a graph of nodes held in an arena. Every bound
//! variable is a two-way link between its binder slot and the field that
//! holds its single occurrence; the rewrite rules keep those links intact.
//!
//! - `intern`, `syntax`, `lex`, `parse`: names, terms, and their text in
//!   and out; `roundtrip` and `encoding` say that the parser reads back
//!   what the printer writes, and that what it writes is UTF-8.
//! - `node`, `net`, `steps`, `graph`: the nodes, the model of a graph with
//!   its well-formedness, and the small steps that every change is made of.
//! - `builder`, `gc`, `rules`, `scan`, `reduce`: building a graph from a
//!   term, discarding what no binder reads, the four rewrite rules, the
//!   search for redex sites, and the driver.
//! - `laws`, `affine`, `reach`, `rooted`: what holds of every graph, which
//!   terms have one, and what can be reached from the root.

pub mod intern;
pub mod node;
pub mod net;
pub mod steps;
pub mod graph;
pub mod gc;
pub mod rules;
pub mod scan;
pub mod reduce;
pub mod syntax;
pub mod lex;
pub mod parse;
pub mod roundtrip;
pub mod encoding;
pub mod builder;
pub mod laws;
pub mod affine;
pub mod reach;
pub mod rooted;
