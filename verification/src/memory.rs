//! Byte-granular sparse memory: a mapping from concrete 64-bit addresses
//! to single-byte values. An address that was never written reads as a
//! concrete zero byte; this zero-fill policy is fixed here once, for
//! every region.

use vstd::prelude::*;

verus! {

use std::collections::HashMap;
use crate::solver::Solver;
use crate::value::{VKind, Value};

broadcast use vstd::std_specs::hash::group_hash_axioms;

/// The sparse byte store of one machine state.
#[derive(Debug)]
pub struct Memory {
    pub cells: HashMap<u64, Value>,
}

impl Memory {
    /// Every stored cell is a well-formed one-byte value of the owning
    /// solver.
    pub open spec fn wf_in(self, s: Solver) -> bool {
        forall|a: u64|
            self.cells@.contains_key(a) ==> s.value_wf(#[trigger] self.cells@[a])
                && self.cells@[a].width == 8
    }

    /// The byte stored at `a`, or a concrete zero byte if `a` was never
    /// written.
    pub open spec fn byte_at(self, a: u64) -> Value {
        if self.cells@.contains_key(a) {
            self.cells@[a]
        } else {
            Value { width: 8, kind: VKind::Concrete(0) }
        }
    }

    /// An empty memory overlay: every address reads as zero.
    pub fn new() -> (r: Memory)
        ensures
            r.cells@ == Map::<u64, Value>::empty(),
            forall|a: u64| r.byte_at(a) == (Value { width: 8, kind: VKind::Concrete(0) }),
    {
        Memory { cells: HashMap::new() }
    }

    /// Read the byte at one concrete address.
    pub fn read_byte(&self, addr: u64) -> (r: Value)
        ensures
            r == self.byte_at(addr),
    {
        match self.cells.get(&addr) {
            Some(v) => *v,
            None => Value { width: 8, kind: VKind::Concrete(0) },
        }
    }

    /// Store a byte at one concrete address.
    pub fn write_byte(&mut self, addr: u64, v: Value)
        requires
            v.width == 8,
        ensures
            final(self).cells@ == old(self).cells@.insert(addr, v),
            final(self).byte_at(addr) == v,
            forall|a: u64| a != addr ==> final(self).byte_at(a) == old(self).byte_at(a),
    {
        self.cells.insert(addr, v);
    }
}

/// Clone a memory overlay cell by cell, preserving the exact mapping.
impl Clone for Memory {
    fn clone(&self) -> (r: Memory)
        ensures
            r.cells@ == self.cells@,
    {
        Memory { cells: self.cells.clone() }
    }
}

} // verus!
