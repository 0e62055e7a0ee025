//! The exploration orchestrator: builds initial states, keeps the
//! frontier of active states, applies the target/avoid policy and drives
//! the processor until a state reaches the target or the frontier
//! empties. Exploration is depth-first and deterministic: the frontier is
//! a stack, and of two fork successors the taken side is explored first.
//! Every state that leaves the frontier without being returned is kept in
//! the discard log with its status recording why.

use vstd::prelude::*;

verus! {

use crate::processor::{CallConv, Hook, InstrSem, Processor, StepResult};
use crate::r2_api::{str_eq, Endian};
use crate::memory::Memory;
use crate::solver::Solver;
use crate::state::{State, Status};
use crate::value::{wf_width, VKind, Value};

/// The outcome of one exploration run: the first state found at the
/// target, a request to decode one more address, a frontier that ran
/// dry, or an exhausted step bound.
pub enum RunResult {
    Found(State),
    NeedFetch(u64),
    DeadEnd,
    Timeout,
}

/// Whether a vector of addresses contains `x`.
pub fn contains_addr(v: &Vec<u64>, x: u64) -> (r: bool)
    ensures
        r == v@.contains(x),
{
    let n = v.len();
    let mut i: usize = 0;
    while i < n
        invariant
            n == v@.len(),
            0 <= i <= n,
            forall|j: int| 0 <= j < i ==> v@[j] != x,
        decreases n - i,
    {
        if v[i] == x {
            return true;
        }
        i = i + 1;
    }
    false
}

/// The exploration orchestrator: the processor configuration (decode
/// cache, hooks, calling convention), the register catalogue, the
/// target's byte order, and the log of discarded states.
pub struct Radius<H> {
    pub processor: Processor<H>,
    pub reg_names: Vec<String>,
    pub reg_widths: Vec<u32>,
    pub endian: Endian,
    pub discarded: Vec<State>,
}

impl<H: Hook> Radius<H> {
    /// The register catalogue is consistent: one legal width per name.
    pub open spec fn wf(self) -> bool {
        &&& self.reg_names@.len() == self.reg_widths@.len()
        &&& forall|i: int|
            0 <= i < self.reg_widths@.len() ==> wf_width(#[trigger] self.reg_widths@[i])
    }

    /// A new orchestrator over a register catalogue and calling
    /// convention, with an empty decode cache and no hooks.
    pub fn new(reg_names: Vec<String>, reg_widths: Vec<u32>, endian: Endian, cc: CallConv) -> (r:
        Radius<H>)
        requires
            reg_names@.len() == reg_widths@.len(),
            forall|i: int| 0 <= i < reg_widths@.len() ==> wf_width(#[trigger] reg_widths@[i]),
        ensures
            r.wf(),
            r.reg_widths@ == reg_widths@,
            r.endian == endian,
            r.processor.hooks@.len() == 0,
            r.processor.cache@ == Map::<u64, InstrSem>::empty(),
    {
        Radius {
            processor: Processor::new(cc),
            reg_names,
            reg_widths,
            endian,
            discarded: Vec::new(),
        }
    }

    /// The catalogue index of the register with the given name.
    pub fn get_register_index(&self, name: &str) -> (r: Option<usize>)
        ensures
            r matches Some(i) ==> i < self.reg_names@.len() && self.reg_names@[i as int]@ == name@,
            r is None ==> forall|i: int|
                0 <= i < self.reg_names@.len() ==> (#[trigger] self.reg_names@[i])@ != name@,
    {
        let n = self.reg_names.len();
        let mut i: usize = 0;
        while i < n
            invariant
                n == self.reg_names@.len(),
                0 <= i <= n,
                forall|j: int| 0 <= j < i ==> (#[trigger] self.reg_names@[j])@ != name@,
            decreases n - i,
        {
            if str_eq(self.reg_names[i].as_str(), name) {
                return Some(i);
            }
            i = i + 1;
        }
        None
    }

    /// Build an initial active state at an entry address: every register
    /// of the catalogue zero-initialized, then each argument register of
    /// the calling convention set to the caller's concrete value where
    /// one is given and to a fresh symbolic value otherwise. Memory is an
    /// empty overlay, the path condition is empty, and the trace starts
    /// at the entry address.
    pub fn call_state(&self, entry: u64, args: &Vec<Option<u64>>) -> (r: State)
        requires
            self.wf(),
        ensures
            r.wf(),
            r.pc == entry,
            r.status is Active,
            r.trace@ =~= seq![entry],
            r.reg_widths@ == self.reg_widths@,
            r.endian == self.endian,
            r.solver.constraints@.len() == 0,
            r.regs@.len() == self.reg_widths@.len(),
            // registers no argument slot names stay zero-initialized
            forall|i: int|
                0 <= i < r.regs@.len() && (forall|k: int|
                    0 <= k < args@.len() && k < self.processor.cc.args@.len()
                        ==> #[trigger] self.processor.cc.args@[k] != i) ==> (
            #[trigger] r.regs@[i]).kind == VKind::Concrete(0u64),
            // each argument register holds the caller's value, truncated
            // to the register's width, or a fresh symbol when none is
            // given; stated for slots no later argument overwrites
            forall|k: int|
                #![trigger args@[k]]
                0 <= k < args@.len() && k < self.processor.cc.args@.len()
                    && self.processor.cc.args@[k] < r.regs@.len() && (forall|k2: int|
                    k < k2 < args@.len() && k2 < self.processor.cc.args@.len()
                        ==> #[trigger] self.processor.cc.args@[k2] != self.processor.cc.args@[k])
                    ==> (match args@[k] {
                    Some(c) => r.regs@[self.processor.cc.args@[k] as int].kind == VKind::Concrete(
                        crate::value::bv_trunc(c, self.reg_widths@[self.processor.cc.args@[k] as int]),
                    ),
                    None => !r.regs@[self.processor.cc.args@[k] as int].is_concrete(),
                }),
    {
        let nr = self.reg_widths.len();
        let mut regs: Vec<Value> = Vec::new();
        let mut i: usize = 0;
        while i < nr
            invariant
                self.wf(),
                nr == self.reg_widths@.len(),
                0 <= i <= nr,
                regs@.len() == i,
                forall|j: int|
                    0 <= j < i ==> (#[trigger] regs@[j]).width == self.reg_widths@[j]
                        && regs@[j].kind == VKind::Concrete(0u64) && crate::value::in_width(
                        0,
                        regs@[j].width,
                    ),
            decreases nr - i,
        {
            let w = self.reg_widths[i];
            proof {
                vstd::arithmetic::power2::lemma_pow2_pos(w as nat);
            }
            let z = Value { width: w, kind: VKind::Concrete(0) };
            regs.push(z);
            i = i + 1;
        }
        let mut st = State {
            regs,
            reg_widths: crate::solver::copy_vec(&self.reg_widths),
            memory: Memory::new(),
            solver: Solver::new(),
            context: Vec::new(),
            pc: entry,
            status: Status::Active,
            endian: self.endian,
            trace: Ghost(Seq::empty().push(entry)),
        };
        // populate the argument registers per the calling convention
        let na = args.len();
        let mut k: usize = 0;
        while k < na
            invariant
                st.wf(),
                st.solver.constraints@.len() == 0,
                st.pc == entry,
                st.status is Active,
                st.trace@ =~= seq![entry],
                st.endian == self.endian,
                st.reg_widths@ == self.reg_widths@,
                na == args@.len(),
                0 <= k <= na,
                st.regs@.len() == self.reg_widths@.len(),
                forall|i: int|
                    0 <= i < st.regs@.len() && (forall|kk: int|
                        0 <= kk < k && kk < self.processor.cc.args@.len()
                            ==> #[trigger] self.processor.cc.args@[kk] != i) ==> (
                #[trigger] st.regs@[i]).kind == VKind::Concrete(0u64),
                forall|kk: int|
                    #![trigger args@[kk]]
                    0 <= kk < k && kk < self.processor.cc.args@.len()
                        && self.processor.cc.args@[kk] < st.regs@.len() && (forall|k2: int|
                        kk < k2 < k && k2 < self.processor.cc.args@.len()
                            ==> #[trigger] self.processor.cc.args@[k2]
                            != self.processor.cc.args@[kk]) ==> (match args@[kk] {
                        Some(c) => st.regs@[self.processor.cc.args@[kk] as int].kind
                            == VKind::Concrete(
                            crate::value::bv_trunc(
                                c,
                                self.reg_widths@[self.processor.cc.args@[kk] as int],
                            ),
                        ),
                        None => !st.regs@[self.processor.cc.args@[kk] as int].is_concrete(),
                    }),
            decreases na - k,
        {
            if k < self.processor.cc.args.len() {
                let idx = self.processor.cc.args[k];
                if idx < st.regs.len() {
                    let w = st.reg_widths[idx];
                    let v = match args[k] {
                        Some(c) => st.concrete_value(c, w),
                        None => st.symbolic_value("arg", w),
                    };
                    st.set_register(idx, v);
                }
            }
            k = k + 1;
        }
        st
    }

    /// Explore from `init` until a state's counter reaches `target`,
    /// discarding without stepping any state whose counter is in the
    /// avoid set, for at most `step_bound` steps. Exploration is
    /// depth-first; of two fork successors the taken side is explored
    /// first, so the returned path is deterministic for a given decode
    /// cache. The returned state is the first found at the target, and no
    /// address in its trace other than possibly the target itself was
    /// ever in the avoid set: an avoided address ends its path before any
    /// successor is produced. `DeadEnd` means the frontier ran dry;
    /// `Timeout` that the step bound ran out; `NeedFetch` that an address
    /// must be decoded and cached before exploration can make progress.
    pub fn run_until(&mut self, init: State, target: u64, avoid: &Vec<u64>, step_bound: usize) -> (r:
        RunResult)
        requires
            init.wf(),
            init.status is Active,
            init.trace@.len() >= 1,
            init.trace@.last() == init.pc,
            forall|i: int| 0 <= i < init.trace@.len() - 1 ==> !avoid@.contains(
                #[trigger] init.trace@[i],
            ),
        ensures
            init.pc == target && step_bound >= 1 ==> r matches RunResult::Found(_),
            r matches RunResult::Found(s) ==> {
                &&& s.wf()
                &&& s.status is TargetReached
                &&& s.pc == target
                &&& s.trace@.len() >= 1
                &&& s.trace@.last() == target
                &&& forall|i: int| 0 <= i < s.trace@.len() - 1 ==> !avoid@.contains(
                    #[trigger] s.trace@[i],
                )
                &&& (!avoid@.contains(target) ==> forall|i: int|
                    0 <= i < s.trace@.len() ==> !avoid@.contains(#[trigger] s.trace@[i]))
            },
    {
        let mut frontier: Vec<State> = Vec::new();
        frontier.push(init);
        let mut steps: usize = 0;
        while steps < step_bound
            invariant
                0 <= steps <= step_bound,
                init.pc == target ==> steps == 0 && frontier@ =~= seq![init],
                forall|i: int|
                    0 <= i < frontier@.len() ==> (#[trigger] frontier@[i]).wf()
                        && frontier@[i].status is Active && frontier@[i].trace@.len() >= 1
                        && frontier@[i].trace@.last() == frontier@[i].pc,
                forall|i: int, j: int|
                    0 <= i < frontier@.len() && 0 <= j < frontier@[i].trace@.len() - 1
                        ==> !avoid@.contains(#[trigger] frontier@[i].trace@[j]),
            decreases step_bound - steps,
        {
            let mut st = match frontier.pop() {
                Some(s) => s,
                None => {
                    return RunResult::DeadEnd;
                },
            };
            if st.pc == target {
                st.status = Status::TargetReached;
                return RunResult::Found(st);
            }
            if contains_addr(avoid, st.pc) {
                st.status = Status::AvoidHit;
                self.discarded.push(st);
            } else {
                let ghost stg = st;
                match self.processor.step(st) {
                    StepResult::NeedFetch(a) => {
                        return RunResult::NeedFetch(a);
                    },
                    StepResult::Next(ss) => {
                        let mut rest = ss;
                        while rest.len() > 0
                            invariant
                                forall|i: int|
                                    0 <= i < frontier@.len() ==> (#[trigger] frontier@[i]).wf()
                                        && frontier@[i].status is Active
                                        && frontier@[i].trace@.len() >= 1
                                        && frontier@[i].trace@.last() == frontier@[i].pc,
                                forall|i: int, j: int|
                                    0 <= i < frontier@.len() && 0 <= j < frontier@[i].trace@.len()
                                        - 1 ==> !avoid@.contains(
                                        #[trigger] frontier@[i].trace@[j],
                                    ),
                                forall|k: int|
                                    0 <= k < rest@.len() ==> (#[trigger] rest@[k]).wf() && (
                                    rest@[k].status is Active || rest@[k].status is Error
                                        || rest@[k].status is Unsat)
                                        && rest@[k].trace@ == stg.trace@.push(rest@[k].pc),
                                stg.trace@.len() >= 1,
                                forall|j: int| 0 <= j < stg.trace@.len() ==> !avoid@.contains(
                                    #[trigger] stg.trace@[j],
                                ),
                            decreases rest@.len(),
                        {
                            let s = rest.pop().unwrap();
                            if matches!(s.status, Status::Active) {
                                frontier.push(s);
                            } else {
                                self.discarded.push(s);
                            }
                        }
                    },
                }
            }
            steps = steps + 1;
        }
        RunResult::Timeout
    }
}

} // verus!
