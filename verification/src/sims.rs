//! Library-provided hooks. `FreshInputSim` models a "read formatted
//! input" routine: each invocation allocates one fresh 32-bit symbolic
//! value, writes it to the pointed-to buffer, records it in the state's
//! context under a fixed key, and reports one item read.

use vstd::prelude::*;

verus! {

use crate::processor::Hook;
use crate::solver::Solver;
use crate::state::State;
use crate::value::{Value, VKind, bv_trunc};

/// Models a call that reads one formatted 32-bit integer: the input is
/// unconstrained, so it becomes a fresh symbolic value, stored both at
/// the pointer argument with the given index and in the state's context
/// under `key`; the call returns the concrete 64-bit value one, the
/// number of items read.
pub struct FreshInputSim {
    pub key: String,
    pub arg_index: usize,
}

impl Hook for FreshInputSim {
    fn call(&self, state: &mut State, args: &Vec<Value>) -> (r: Value) {
        let ghost olds = state.solver;
        let v = state.symbolic_value(self.key.as_str(), 32);
        let ghost s1 = state.solver;
        if self.arg_index < args.len() {
            let addr = args[self.arg_index];
            proof {
                Solver::lemma_value_wf_extends(olds, state.solver, addr);
            }
            let _ = state.memory_write_value(&addr, &v, 4);
            proof {
                Solver::lemma_value_wf_extends(s1, state.solver, v);
            }
            state.context_push(self.key.as_str(), v);
        }
        state.concrete_value(1, 64)
    }
}

} // verus!
