//! A symbolic execution engine core: bit-precise concrete/symbolic values,
//! per-path machine states (registers, byte-granular memory, path condition),
//! an instruction-semantics interpreter that forks states at data-dependent
//! branches, and an exploration orchestrator that drives states toward a
//! target address while avoiding forbidden addresses.

use vstd::prelude::*;

pub mod r2_api;
pub mod value;
pub mod solver;
pub mod memory;
pub mod state;
pub mod processor;
pub mod radius;
pub mod sims;

verus! {

/// Errors raised by the engine. Path-local failures (`SemanticsError`,
/// `DivideByZeroForced`, `SymbolicAddress`, `Unsat`) terminate one state;
/// `DeadEnd` and `Timeout` are ordinary outcomes of exploration.
#[derive(Clone, Copy, PartialEq, Eq, Structural, Debug)]
pub enum RadiusError {
    WidthMismatch,
    DivideByZeroForced,
    Unsat,
    SolverTimeout,
    SymbolicAddress,
    SemanticsError,
    BackendError,
    DeadEnd,
    Timeout,
}

} // verus!
