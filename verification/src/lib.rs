//! AuToken: borrow-aware context passing checked by static analysis. This crate holds
//! the analysis itself, verified: the algebra of token sets, the propagation of borrow
//! facts through call graphs, the rewriting of function bodies so that borrow checking
//! sees tokens, the detection of conflicting and leaked borrows, the leak-counting
//! analysis, the diagnostics' texts, the decisions of the `cargo autoken` driver, and
//! the small utility types all of these are built from. Compiler types enter as plain
//! values: functions, types, regions, spans and locals are identified by numbers.
use vstd::prelude::*;

pub mod mutability;
pub mod vec_map;
pub mod tokens;
pub mod trace;
pub mod leaks;
pub mod pair;
pub mod regions;
pub mod template;
pub mod overlap;
pub mod util;
pub mod versions;
pub mod driver;
pub mod demos;
pub mod feeder;
pub mod shapes;
pub mod launcher;
pub mod mir_builder;
pub mod template_facts;
pub mod messages;
pub mod obj;

verus! {
} // verus!
