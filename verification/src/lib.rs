//! A multi-token accounting core.
//!
//! The ledger tracks, per (owner, token id) pair, a non-negative integer
//! balance, and enforces two layers of delegated authorization — a per-token
//! bounded allowance and a blanket per-owner operator grant — before
//! permitting any balance movement. Every mutating entry point either fully
//! succeeds or fails with the first offending condition and leaves the state
//! untouched.
//!
//! [`model`] gives the mathematical state and one transition function per
//! operation; [`ledger`] holds the executable engine, whose contracts equate
//! each call with its transition; [`queries`] holds the read-only surface;
//! [`laws`] states and proves the ledger's global properties. The stores —
//! [`balances`], [`approvals`], [`operators`], [`tokens`] — are sorted
//! association vectors over the map lemmas of [`assoc`] and the string
//! order of [`lex`].

pub mod approvals;
pub mod assoc;
pub mod balances;
pub mod error;
pub mod expiration;
pub mod laws;
pub mod ledger;
pub mod lex;
pub mod model;
pub mod operators;
pub mod queries;
mod tally;
pub mod tokens;
