//! A small push-based dataflow runtime, the relational operators built on
//! it, and the evaluation of recursive programs of clauses on top of both.
//!
//! The runtime:
//! - [`schedule`]: the work-list of operators that wait to run;
//! - [`babyflow`]: the graph of operators, and the loop that runs them;
//! - [`ops`]: ready-made operators on integers and on rows.
//!
//! Relations:
//! - [`relation`], [`distinct`], [`join`]: rows, tables, and the incremental
//!   join;
//! - [`node`]: the relational operators as nodes of a graph;
//! - [`query`]: building a graph of them, one operator after the other.
//!
//! Programs:
//! - [`program`], [`parse`]: clauses over named relations, and their text;
//! - [`compile`]: from a program to its graph, and from the graph to the
//!   rows of a relation;
//! - [`meaning`]: the rows that the clauses of a program derive.
//!
//! What is proved of the evaluation, beyond the contracts of the functions:
//! - [`tables`]: rendering gives the table of the relation, every row once;
//! - [`promise`], [`sound`]: every row that rendering gives is derived;
//! - [`flow`], [`reach`], [`layout`], [`complete`]: every row that is
//!   derived is given.

pub mod babyflow;
pub mod compile;
pub mod complete;
pub mod distinct;
pub mod flow;
pub mod join;
pub mod layout;
pub mod meaning;
pub mod node;
pub mod ops;
pub mod parse;
pub mod program;
pub mod promise;
pub mod query;
pub mod reach;
pub mod relation;
pub mod schedule;
pub mod sound;
pub mod tables;
