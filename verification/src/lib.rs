//! An ownership and borrow verifier for a small structural program model.
//!
//! The verifier takes a program as a table of functions, each with a scope
//! tree, a binding table and a control-flow graph of statements, and reports
//! reads of moved or uninitialized values, conflicting borrows and references
//! that outlive the storage they point into. It does not run the program
//! and it does not infer types: it accepts or rejects, with diagnostics.
//!
//! The passes run in this order, each reading what the earlier ones
//! produced:
//!
//! - [`scopes`] checks the structure of a function and records where its
//!   bindings are declared;
//! - [`ownership`] computes, by forward dataflow over the control-flow
//!   graph, the state of every place at every program point;
//! - [`borrows`] collects the borrows, computes the region over which each
//!   is live, and finds the conflicts;
//! - [`regions`] checks every region against the storage that the borrow
//!   points into, with [`signature`] telling which arguments of a call may
//!   come back in its result;
//! - [`drops`] schedules the release of the values that are still owned
//!   where control leaves a scope;
//! - [`report`] orders the diagnostics, and [`engine`] drives the whole.
//!
//! [`laws`] states what holds of every run. [`samples`] holds small routines
//! that show the ownership patterns themselves.

pub mod model;
pub mod diag;
pub mod lattice;
pub mod dataflow;
pub mod graph;
pub mod seqs;
pub mod cfg;
pub mod scopes;
pub mod ownership;
pub mod signature;
pub mod borrows;
pub mod regions;
pub mod drops;
pub mod report;
pub mod engine;
pub mod laws;
pub mod samples;
