//! The semantics processor: interprets an instruction's semantics program
//! — an ordered token sequence evaluated as an operand-stack machine —
//! against one machine state, producing its successor states. A state
//! forks only at a conditional transfer whose condition is symbolic, and
//! a candidate successor is dropped only when its constraint set is
//! proved unsatisfiable. An address with a registered hook never has its
//! native semantics evaluated: the hook mutates the state, its return
//! value lands in the calling convention's return slot, and the program
//! counter advances past the hooked instruction.

use vstd::prelude::*;

verus! {

use std::collections::HashMap;
use vstd::arithmetic::power2::lemma2_to64;
use vstd::arithmetic::div_mod::lemma_mod_bound;
use crate::solver::{lemma_eval_in_width, SatResult, Solver};
use crate::state::{State, Status};
use crate::value::{BinOp, VKind, Value, in_width};

broadcast use vstd::std_specs::hash::group_hash_axioms;

/// One token of a semantics program. Tokens either push an operand,
/// combine operands, commit a result, or transfer control.
#[derive(Clone, Copy, PartialEq, Eq, Structural, Debug)]
pub enum Token {
    /// Push a literal of the given width.
    PushImm(u64, u32),
    /// Push the value of a register, by catalogue index.
    PushReg(usize),
    /// Pop two operands and push the operation's result.
    Bin(BinOp),
    /// Pop one operand and push its complement.
    Not,
    /// Pop a value and commit it to a register, by catalogue index.
    PopReg(usize),
    /// Pop an address and push the given number of bytes read there.
    Load(u32),
    /// Pop an address, pop a value, and write it there at that length.
    Store(u32),
    /// Unconditional transfer to the given address.
    Goto(u64),
    /// Pop a one-bit condition; transfer to the given address when it is
    /// one, fall through otherwise.
    GotoIf(u64),
}

/// A decoded instruction: its byte length and its semantics program.
#[derive(Clone, Debug)]
pub struct InstrSem {
    pub size: u64,
    pub tokens: Vec<Token>,
}

/// The calling convention the processor uses at hooked addresses:
/// argument and return registers, by catalogue index.
#[derive(Clone, Debug)]
pub struct CallConv {
    pub args: Vec<usize>,
    pub ret: usize,
}

/// A hook models a routine's effect symbolically instead of letting its
/// native instructions run: it may mutate the state it is given and
/// returns the value for the convention's return slot. Implementations
/// must keep the state well formed and leave the bookkeeping fields
/// (counter, status, byte order, trace, register catalogue) alone; the
/// processor itself advances the counter afterwards.
pub trait Hook {
    fn call(&self, state: &mut State, args: &Vec<Value>) -> (r: Value)
        requires
            old(state).wf(),
            forall|i: int|
                0 <= i < args@.len() ==> old(state).solver.value_wf(#[trigger] args@[i]),
        ensures
            final(state).wf(),
            final(state).solver.value_wf(r),
            final(state).reg_widths@ == old(state).reg_widths@,
            final(state).regs@.len() == old(state).regs@.len(),
            final(state).pc == old(state).pc,
            final(state).status == old(state).status,
            final(state).endian == old(state).endian,
            final(state).trace == old(state).trace,
    ;
}

/// `base + off` modulo the 64-bit address space.
pub open spec fn wrap_add(base: u64, off: u64) -> u64 {
    ((base + off) % 0x10000000000000000) as u64
}

/// Compute `base + off` with wraparound.
pub fn exec_wrap_add(base: u64, off: u64) -> (r: u64)
    ensures
        r == wrap_add(base, off),
{
    proof {
        lemma_mod_bound((base + off) as int, 0x10000000000000000);
    }
    (((base as u128) + (off as u128)) % 0x10000000000000000u128) as u64
}

/// A successor of `parent` that took the branch side asserting that
/// `cond` equals `bit`, with its counter at `pc`: its path condition is
/// the parent's conjoined with that assertion, and its trace grew by one.
pub open spec fn branch_side(parent: State, s: State, cond: Value, bit: u64, pc: u64) -> bool {
    &&& s.pc == pc
    &&& s.trace@ == parent.trace@.push(pc)
    &&& s.regs@ == parent.regs@
    &&& s.memory.cells@ == parent.memory.cells@
    &&& forall|m: Seq<u64>|
        parent.solver.model_ok(m) ==> ((#[trigger] s.solver.holds(m)) <==> (parent.solver.holds(m)
            && parent.solver.value_sem(cond, m) == bit))
}

/// No model satisfies the parent's path condition together with `cond`
/// equal to `bit`.
pub open spec fn side_unsat(parent: State, cond: Value, bit: u64) -> bool {
    forall|m: Seq<u64>|
        !(parent.solver.model_ok(m) && parent.solver.holds(m) && parent.solver.value_sem(cond, m)
            == bit)
}

/// A one-bit value only ever means zero or one.
pub proof fn lemma_bit_sem(s: Solver, v: Value, m: Seq<u64>)
    requires
        s.wf(),
        s.value_wf(v),
        v.width == 1,
        s.model_ok(m),
    ensures
        s.value_sem(v, m) == 0 || s.value_sem(v, m) == 1,
{
    lemma2_to64();
    match v.kind {
        VKind::Concrete(_) => {},
        VKind::Symbolic(i) => {
            lemma_eval_in_width(s.exprs@, s.var_widths@, i as int, m);
        },
    }
}

/// Fork a state at a data-dependent branch: build the taken-side and the
/// fall-through candidates, taken side first. A candidate whose
/// constraint set is proved unsatisfiable is marked `Unsat` — recording
/// why it leaves exploration — and only `Active` candidates are ever
/// enqueued again. This is the engine's sole forking mechanism and its
/// sole pruning point: a pruned side is genuinely unsatisfiable, so
/// every satisfiable branch survives, and a satisfiable parent always
/// keeps at least one active successor. The converse is bounded by the
/// built-in oracle: a side it cannot decide stays active even though its
/// store might be unsatisfiable, so an active status means "not proved
/// contradictory", and is a genuine satisfiability guarantee exactly on
/// the oracle's completeness domain. A concrete condition never forks:
/// exactly one successor is produced and no constraint is added.
pub fn fork_on(state: State, cond: Value, taken: u64, fall: u64) -> (r: Vec<State>)
    requires
        state.wf(),
        state.status is Active,
        state.solver.value_wf(cond),
        cond.width == 1,
    ensures
        r@.len() <= 2,
        forall|i: int|
            0 <= i < r@.len() ==> (#[trigger] r@[i]).wf() && (r@[i].status is Active
                || r@[i].status is Unsat) && r@[i].reg_widths@ == state.reg_widths@
                && r@[i].endian == state.endian && r@[i].trace@ == state.trace@.push(r@[i].pc),
        forall|i: int|
            0 <= i < r@.len() ==> branch_side(state, #[trigger] r@[i], cond, 1, taken)
                || branch_side(state, r@[i], cond, 0, fall),
        forall|i: int|
            0 <= i < r@.len() && (#[trigger] r@[i]).status is Unsat ==> !r@[i].solver.satisfiable(),
        (forall|i: int|
            0 <= i < r@.len() ==> !(branch_side(state, #[trigger] r@[i], cond, 1, taken)
                && r@[i].status is Active)) ==> side_unsat(state, cond, 1),
        (forall|i: int|
            0 <= i < r@.len() ==> !(branch_side(state, #[trigger] r@[i], cond, 0, fall)
                && r@[i].status is Active)) ==> side_unsat(state, cond, 0),
        state.solver.satisfiable() ==> exists|i: int|
            0 <= i < r@.len() && (#[trigger] r@[i]).status is Active,
        cond.is_concrete() ==> r@.len() == 1 && r@[0].status is Active,
{
    let ghost parent = state;
    match cond.kind {
        VKind::Concrete(c) => {
            let mut st = state;
            st.pc = if c == 1 {
                taken
            } else {
                fall
            };
            proof {
                lemma2_to64();
            }
            st.trace = Ghost(parent.trace@.push(st.pc));
            proof {
                lemma2_to64();
                assert(in_width(c, 1));
                if c == 1 {
                    assert(branch_side(parent, st, cond, 1, taken));
                    assert(side_unsat(parent, cond, 0));
                } else {
                    assert(c == 0);
                    assert(branch_side(parent, st, cond, 0, fall));
                    assert(side_unsat(parent, cond, 1));
                }
            }
            let r = vec![st];
            proof {
                assert(r@[0] == st);
                if c == 1 {
                    assert(branch_side(parent, r@[0], cond, 1, taken));
                } else {
                    assert(branch_side(parent, r@[0], cond, 0, fall));
                }
            }
            r
        },
        VKind::Symbolic(_) => {
            let mut out: Vec<State> = Vec::new();
            let mut t = state.fork();
            let ghost tpre = t.solver;
            t.solver.add_constraint(&cond);
            proof {
                crate::state::lemma_state_values_extend(tpre, t.solver, t);
            }
            t.pc = taken;
            t.trace = Ghost(parent.trace@.push(taken));
            proof {
                assert forall|m: Seq<u64>| parent.solver.model_ok(m) implies ((
                #[trigger] t.solver.holds(m)) <==> (parent.solver.holds(m)
                    && parent.solver.value_sem(cond, m) == 1)) by {}
                assert(branch_side(parent, t, cond, 1, taken));
            }
            let keep_t = !matches!(t.solver.check_sat(), SatResult::Unsat);
            let ghost tkept = keep_t;
            proof {
                if !keep_t {
                    assert(!t.solver.satisfiable());
                    assert(side_unsat(parent, cond, 1)) by {
                        assert forall|m: Seq<u64>|
                            !(parent.solver.model_ok(m) && parent.solver.holds(m)
                                && parent.solver.value_sem(cond, m) == 1) by {
                            if parent.solver.model_ok(m) && parent.solver.holds(m)
                                && parent.solver.value_sem(cond, m) == 1 {
                                assert(t.solver.model_ok(m) && t.solver.holds(m));
                            }
                        }
                    }
                }
            }
            if !keep_t {
                t.status = Status::Unsat;
            }
            out.push(t);
            let mut f = state.fork();
            let ghost fpre0 = f.solver;
            let nc = f.solver.apply_not(&cond);
            let ghost fpre = f.solver;
            f.solver.add_constraint(&nc);
            proof {
                crate::state::lemma_state_values_extend(fpre0, fpre, f);
                crate::state::lemma_state_values_extend(fpre, f.solver, f);
            }
            f.pc = fall;
            f.trace = Ghost(parent.trace@.push(fall));
            proof {
                lemma2_to64();
                assert forall|m: Seq<u64>| parent.solver.model_ok(m) implies ((
                #[trigger] f.solver.holds(m)) <==> (parent.solver.holds(m)
                    && parent.solver.value_sem(cond, m) == 0)) by {
                    assert(f.solver.holds(m) <==> (fpre.holds(m) && fpre.value_sem(nc, m) == 1));
                    assert(fpre.value_sem(nc, m) == crate::value::bv_not(
                        parent.solver.value_sem(cond, m),
                        1,
                    ));
                    lemma_bit_sem(parent.solver, cond, m);
                }
                assert(branch_side(parent, f, cond, 0, fall));
            }
            let keep_f = !matches!(f.solver.check_sat(), SatResult::Unsat);
            proof {
                if !keep_f {
                    assert(!f.solver.satisfiable());
                    assert(side_unsat(parent, cond, 0)) by {
                        assert forall|m: Seq<u64>|
                            !(parent.solver.model_ok(m) && parent.solver.holds(m)
                                && parent.solver.value_sem(cond, m) == 0) by {
                            if parent.solver.model_ok(m) && parent.solver.holds(m)
                                && parent.solver.value_sem(cond, m) == 0 {
                                assert(f.solver.model_ok(m) && f.solver.holds(m));
                            }
                        }
                    }
                }
            }
            if !keep_f {
                f.status = Status::Unsat;
            }
            out.push(f);
            proof {
                assert(out@[0] == t);
                assert(branch_side(parent, out@[0], cond, 1, taken));
                assert(out@[1] == f);
                assert(branch_side(parent, out@[1], cond, 0, fall));
                if parent.solver.satisfiable() {
                    let m = choose|m: Seq<u64>|
                        parent.solver.model_ok(m) && parent.solver.holds(m);
                    lemma_bit_sem(parent.solver, cond, m);
                    if !tkept && !keep_f {
                        assert(false);
                    }
                    if tkept {
                        assert(out@[0].status is Active);
                    } else {
                        assert(out@[1].status is Active);
                    }
                }
            }
            out
        },
    }
}

/// The result of stepping one state: its successor states, or the
/// address whose semantics program is missing from the decode cache and
/// must be fetched from the backend before the step can be retried.
pub enum StepResult {
    Next(Vec<State>),
    NeedFetch(u64),
}

/// The semantics processor: the decode cache, the hook table and the
/// calling convention used at hooked addresses. Hooks are process-wide
/// configuration consulted on every step, not per-state data.
pub struct Processor<H> {
    pub cache: HashMap<u64, InstrSem>,
    pub hooks: Vec<(u64, H)>,
    pub cc: CallConv,
}

impl<H: Hook> Processor<H> {
    /// Whether some hook is registered at `a`.
    pub open spec fn hooked(self, a: u64) -> bool {
        exists|i: int| 0 <= i < self.hooks@.len() && (#[trigger] self.hooks@[i]).0 == a
    }

    /// A new processor with no cached instructions and no hooks.
    pub fn new(cc: CallConv) -> (r: Processor<H>)
        ensures
            r.cache@ == Map::<u64, InstrSem>::empty(),
            r.hooks@.len() == 0,
            r.cc == cc,
    {
        Processor { cache: HashMap::new(), hooks: Vec::new(), cc }
    }

    /// Register a hook at an address: from now on, stepping a state whose
    /// counter is that address runs the hook instead of the address's
    /// native semantics.
    pub fn register_hook(&mut self, addr: u64, hook: H)
        ensures
            final(self).hooks@ == old(self).hooks@.push((addr, hook)),
            final(self).cache@ == old(self).cache@,
            final(self).cc == old(self).cc,
            final(self).hooked(addr),
    {
        self.hooks.push((addr, hook));
        proof {
            assert(self.hooks@[self.hooks@.len() - 1].0 == addr);
        }
    }

    /// Cache the decoded semantics program for an address.
    pub fn add_instruction(&mut self, addr: u64, sem: InstrSem)
        ensures
            final(self).cache@ == old(self).cache@.insert(addr, sem),
            final(self).hooks@ == old(self).hooks@,
            final(self).cc == old(self).cc,
    {
        self.cache.insert(addr, sem);
    }

    /// The index of the first hook registered at `a`, if any.
    fn find_hook(&self, a: u64) -> (r: Option<usize>)
        ensures
            r matches Some(i) ==> i < self.hooks@.len() && self.hooks@[i as int].0 == a,
            r is None ==> !self.hooked(a),
    {
        let n = self.hooks.len();
        let mut i: usize = 0;
        while i < n
            invariant
                n == self.hooks@.len(),
                0 <= i <= n,
                forall|j: int| 0 <= j < i ==> (#[trigger] self.hooks@[j]).0 != a,
            decreases n - i,
        {
            if self.hooks[i].0 == a {
                return Some(i);
            }
            i = i + 1;
        }
        None
    }

    /// Step one active state: run the hook registered at its counter if
    /// there is one — the native semantics program is then never
    /// evaluated and exactly one successor is produced — or else evaluate
    /// the cached semantics program as an operand-stack machine, forking
    /// at a symbolic conditional transfer. A missing cache entry asks for
    /// a fetch. Every successor is well formed, keeps the register
    /// catalogue and byte order, and extends the parent's trace by its
    /// own counter; a successor whose status is not `Active` records
    /// there why it must leave exploration.
    pub fn step(&self, state: State) -> (r: StepResult)
        requires
            state.wf(),
            state.status is Active,
        ensures
            r matches StepResult::Next(ss) ==> {
                &&& ss@.len() <= 2
                &&& forall|i: int|
                    0 <= i < ss@.len() ==> (#[trigger] ss@[i]).wf() && ss@[i].reg_widths@
                        == state.reg_widths@ && ss@[i].endian == state.endian && ss@[i].trace@
                        == state.trace@.push(ss@[i].pc) && (ss@[i].status is Active
                        || ss@[i].status is Error || ss@[i].status is Unsat)
                &&& (self.hooked(state.pc) ==> ss@.len() == 1)
                &&& (self.hooked(state.pc) && ss@[0].status is Active ==> ss@[0].pc == wrap_add(
                    state.pc,
                    self.cache@[state.pc].size,
                ))
                &&& (self.hooked(state.pc) && self.cc.ret < state.regs@.len() && (forall|k: int|
                    0 <= k < self.cc.args@.len() ==> #[trigger] self.cc.args@[k]
                        < state.regs@.len()) ==> ss@[0].status is Active)
                &&& (!self.hooked(state.pc) && self.cache@[state.pc].tokens@.len() == 0 ==> ss@.len()
                    == 1 && ss@[0].status is Active && ss@[0].pc == wrap_add(
                    state.pc,
                    self.cache@[state.pc].size,
                ))
            },
            r matches StepResult::NeedFetch(a) ==> a == state.pc && !self.cache@.contains_key(
                state.pc,
            ),
    {
        let ghost parent = state;
        let pc = state.pc;
        let instr = match self.cache.get(&pc) {
            Some(s) => s,
            None => {
                return StepResult::NeedFetch(pc);
            },
        };
        let size = instr.size;
        if let Some(hi) = self.find_hook(pc) {
            let mut st = state;
            // resolve the call arguments per the calling convention
            let mut args: Vec<Value> = Vec::new();
            let na = self.cc.args.len();
            let mut ai: usize = 0;
            let mut bad = false;
            while ai < na
                invariant
                    st == state,
                    st.wf(),
                    na == self.cc.args@.len(),
                    0 <= ai <= na,
                    forall|j: int| 0 <= j < args@.len() ==> st.solver.value_wf(#[trigger] args@[j]),
                    bad ==> exists|k: int|
                        0 <= k < na && #[trigger] self.cc.args@[k] >= st.regs@.len(),
                decreases na - ai,
            {
                let idx = self.cc.args[ai];
                if idx < st.regs.len() {
                    let v = st.get_register(idx);
                    args.push(v);
                } else {
                    bad = true;
                }
                ai = ai + 1;
            }
            if bad {
                let mut e = st;
                e.status = Status::Error;
                e.trace = Ghost(parent.trace@.push(e.pc));
                return StepResult::Next(vec![e]);
            }
            let hv = self.hooks[hi].1.call(&mut st, &args);
            // install the return value in the convention's return slot
            let ret = self.cc.ret;
            if ret >= st.regs.len() {
                let mut e = st;
                e.status = Status::Error;
                e.trace = Ghost(parent.trace@.push(e.pc));
                return StepResult::Next(vec![e]);
            }
            // fit the hook's value to the return slot's width
            let rw = st.reg_widths[ret];
            let ghost mids = st.solver;
            let hv2 = if hv.width < rw {
                st.solver.zext(&hv, rw)
            } else if hv.width > rw {
                st.solver.trunc(&hv, rw)
            } else {
                hv
            };
            proof {
                crate::state::lemma_state_values_extend(mids, st.solver, st);
            }
            st.set_register(ret, hv2);
            // advance past the hooked call; its semantics never ran
            st.pc = exec_wrap_add(pc, size);
            st.trace = Ghost(parent.trace@.push(st.pc));
            return StepResult::Next(vec![st]);
        }
        // evaluate the semantics program as an operand-stack machine
        let mut st = state;
        let mut stack: Vec<Value> = Vec::new();
        let ntok = instr.tokens.len();
        let mut ti: usize = 0;
        while ti < ntok
            invariant
                parent == state,
                !self.hooked(parent.pc),
                parent.status is Active,
                pc == parent.pc,
                self.cache@.contains_key(parent.pc),
                ntok == self.cache@[parent.pc].tokens@.len(),
                size == self.cache@[parent.pc].size,
                st.wf(),
                st.status is Active,
                ntok == instr.tokens@.len(),
                0 <= ti <= ntok,
                st.reg_widths@ == parent.reg_widths@,
                st.endian == parent.endian,
                st.trace@ == parent.trace@,
                forall|j: int| 0 <= j < stack@.len() ==> st.solver.value_wf(#[trigger] stack@[j]),
            decreases ntok - ti,
        {
            let ghost pres = st.solver;
            match instr.tokens[ti] {
                Token::PushImm(c, w) => {
                    if w < 1 || w > 64 {
                        let mut e = st;
                        e.status = Status::Error;
                        e.trace = Ghost(parent.trace@.push(e.pc));
                        return StepResult::Next(vec![e]);
                    }
                    let v = st.concrete_value(c, w);
                    stack.push(v);
                },
                Token::PushReg(idx) => {
                    if idx >= st.regs.len() {
                        let mut e = st;
                        e.status = Status::Error;
                        e.trace = Ghost(parent.trace@.push(e.pc));
                        return StepResult::Next(vec![e]);
                    }
                    let v = st.get_register(idx);
                    stack.push(v);
                },
                Token::Bin(op) => {
                    if stack.len() < 2 {
                        let mut e = st;
                        e.status = Status::Error;
                        e.trace = Ghost(parent.trace@.push(e.pc));
                        return StepResult::Next(vec![e]);
                    }
                    let b = stack.pop().unwrap();
                    let a = stack.pop().unwrap();
                    match st.solver.apply_bin(op, &a, &b) {
                        Ok(v) => {
                            proof {
                                crate::state::lemma_state_values_extend(pres, st.solver, st);
                                assert forall|j: int|
                                    0 <= j < stack@.len() implies st.solver.value_wf(
                                    #[trigger] stack@[j],
                                ) by {
                                    Solver::lemma_value_wf_extends(pres, st.solver, stack@[j]);
                                }
                            }
                            stack.push(v);
                        },
                        Err(_) => {
                            proof {
                                crate::state::lemma_state_values_extend(pres, st.solver, st);
                            }
                            let mut e = st;
                            e.status = Status::Error;
                            e.trace = Ghost(parent.trace@.push(e.pc));
                            return StepResult::Next(vec![e]);
                        },
                    }
                },
                Token::Not => {
                    if stack.len() < 1 {
                        let mut e = st;
                        e.status = Status::Error;
                        e.trace = Ghost(parent.trace@.push(e.pc));
                        return StepResult::Next(vec![e]);
                    }
                    let a = stack.pop().unwrap();
                    let v = st.solver.apply_not(&a);
                    proof {
                        crate::state::lemma_state_values_extend(pres, st.solver, st);
                        assert forall|j: int|
                            0 <= j < stack@.len() implies st.solver.value_wf(
                            #[trigger] stack@[j],
                        ) by {
                            Solver::lemma_value_wf_extends(pres, st.solver, stack@[j]);
                        }
                    }
                    stack.push(v);
                },
                Token::PopReg(idx) => {
                    if stack.len() < 1 || idx >= st.regs.len() {
                        let mut e = st;
                        e.status = Status::Error;
                        e.trace = Ghost(parent.trace@.push(e.pc));
                        return StepResult::Next(vec![e]);
                    }
                    let v = stack.pop().unwrap();
                    let rw = st.reg_widths[idx];
                    if v.width != rw {
                        let mut e = st;
                        e.status = Status::Error;
                        e.trace = Ghost(parent.trace@.push(e.pc));
                        return StepResult::Next(vec![e]);
                    }
                    st.set_register(idx, v);
                },
                Token::Load(len) => {
                    if stack.len() < 1 || len < 1 || len > 8 {
                        let mut e = st;
                        e.status = Status::Error;
                        e.trace = Ghost(parent.trace@.push(e.pc));
                        return StepResult::Next(vec![e]);
                    }
                    let a = stack.pop().unwrap();
                    match st.memory_read_value(&a, len) {
                        Ok(v) => {
                            proof {
                                assert forall|j: int|
                                    0 <= j < stack@.len() implies st.solver.value_wf(
                                    #[trigger] stack@[j],
                                ) by {
                                    Solver::lemma_value_wf_extends(pres, st.solver, stack@[j]);
                                }
                            }
                            stack.push(v);
                        },
                        Err(_) => {
                            let mut e = st;
                            e.status = Status::Error;
                            e.trace = Ghost(parent.trace@.push(e.pc));
                            return StepResult::Next(vec![e]);
                        },
                    }
                },
                Token::Store(len) => {
                    if stack.len() < 2 || len < 1 || len > 8 {
                        let mut e = st;
                        e.status = Status::Error;
                        e.trace = Ghost(parent.trace@.push(e.pc));
                        return StepResult::Next(vec![e]);
                    }
                    let a = stack.pop().unwrap();
                    let v = stack.pop().unwrap();
                    if v.width != 8 * len {
                        let mut e = st;
                        e.status = Status::Error;
                        e.trace = Ghost(parent.trace@.push(e.pc));
                        return StepResult::Next(vec![e]);
                    }
                    match st.memory_write_value(&a, &v, len) {
                        Ok(_) => {
                            proof {
                                assert forall|j: int|
                                    0 <= j < stack@.len() implies st.solver.value_wf(
                                    #[trigger] stack@[j],
                                ) by {
                                    Solver::lemma_value_wf_extends(pres, st.solver, stack@[j]);
                                }
                            }
                        },
                        Err(_) => {
                            let mut e = st;
                            e.status = Status::Error;
                            e.trace = Ghost(parent.trace@.push(e.pc));
                            return StepResult::Next(vec![e]);
                        },
                    }
                },
                Token::Goto(tgt) => {
                    st.pc = tgt;
                    st.trace = Ghost(parent.trace@.push(tgt));
                    return StepResult::Next(vec![st]);
                },
                Token::GotoIf(tgt) => {
                    if stack.len() < 1 {
                        let mut e = st;
                        e.status = Status::Error;
                        e.trace = Ghost(parent.trace@.push(e.pc));
                        return StepResult::Next(vec![e]);
                    }
                    let c = stack.pop().unwrap();
                    if c.width != 1 {
                        let mut e = st;
                        e.status = Status::Error;
                        e.trace = Ghost(parent.trace@.push(e.pc));
                        return StepResult::Next(vec![e]);
                    }
                    let fall = exec_wrap_add(pc, size);
                    let succs = fork_on(st, c, tgt, fall);
                    return StepResult::Next(succs);
                },
            }
            ti = ti + 1;
        }
        // no transfer token fired: fall through to the next instruction
        st.pc = exec_wrap_add(pc, size);
        st.trace = Ghost(parent.trace@.push(st.pc));
        StepResult::Next(vec![st])
    }
}

} // verus!
