//! One execution path's complete machine view: registers, byte-granular
//! memory, the path condition (owned through the solver), free-form
//! context bookkeeping for hooks, the program counter and a status.
//! States are mutated only by the processor and by hooks, and forked by
//! cloning; each fork owns an independent solver context.

use vstd::prelude::*;

verus! {

use vstd::arithmetic::power2::{pow2, lemma_pow2_adds, lemma_pow2_pos, lemma2_to64};
use vstd::arithmetic::div_mod::{lemma_mod_breakdown, lemma_small_mod, lemma_mod_bound};
use crate::memory::Memory;
use crate::r2_api::{Endian, str_eq};
use crate::solver::Solver;
use crate::value::{
    BinOp,
    VKind,
    Value,
    bv_byte,
    bv_concat,
    bv_trunc,
    exec_bv_trunc,
    in_width,
    wf_width,
    lemma_pow2_le_64,
};
use crate::RadiusError;

/// Where a state stands in exploration. Only `Active` states are stepped;
/// the other values record why a state left the frontier.
#[derive(Clone, Copy, PartialEq, Eq, Structural, Debug)]
pub enum Status {
    Active,
    TargetReached,
    AvoidHit,
    Unsat,
    DeadEnd,
    Error,
}

/// The address `base + off`, wrapping around the 64-bit address space.
pub open spec fn addr_off(base: u64, off: int) -> u64 {
    ((base + off) % 0x10000000000000000) as u64
}

/// The memory offset at which the byte of significance `i` (zero least
/// significant) of an `len`-byte word lives: `i` itself in little-endian
/// order, mirrored in big-endian order. `Mixed` and `Unknown` byte
/// orders are treated as little-endian.
pub open spec fn byte_pos(endian: Endian, len: int, i: int) -> int {
    if endian is Big {
        len - 1 - i
    } else {
        i
    }
}

/// The value denoted by composing byte meanings `bs[k..]`, where `bs[j]`
/// is the byte of significance `j`: the last byte is most significant.
pub open spec fn compose_sem(bs: Seq<u64>, k: int) -> u64
    decreases bs.len() - k,
{
    if k < 0 || k >= bs.len() {
        0
    } else if k == bs.len() - 1 {
        bs[k]
    } else {
        bv_concat(compose_sem(bs, k + 1), bs[k], 8)
    }
}

/// Compute `base + off` with wraparound.
fn exec_addr_off(base: u64, off: u32) -> (r: u64)
    ensures
        r == addr_off(base, off as int),
{
    proof {
        lemma_mod_bound((base + off) as int, 0x10000000000000000);
    }
    (((base as u128) + (off as u128)) % 0x10000000000000000u128) as u64
}

/// A sequence is a prefix of itself.
pub proof fn lemma_prefix_refl<T>(s: Seq<T>)
    ensures
        s.is_prefix_of(s),
{
    assert(s =~= s.subrange(0, s.len() as int));
}

/// A solver extends itself.
pub proof fn lemma_extends_loose_refl(s: Solver)
    ensures
        s.extends_loose(s),
{
    lemma_prefix_refl(s.exprs@);
    lemma_prefix_refl(s.var_widths@);
    lemma_prefix_refl(s.constraints@);
}

/// Prefixes compose.
pub proof fn lemma_prefix_trans<T>(a: Seq<T>, b: Seq<T>, c: Seq<T>)
    requires
        a.is_prefix_of(b),
        b.is_prefix_of(c),
    ensures
        a.is_prefix_of(c),
{
    assert(a =~= c.subrange(0, a.len() as int));
}

/// Every byte a memory yields — stored or the zero fill — is a
/// well-formed one-byte value of the owning solver.
pub proof fn lemma_byte_wf(s: Solver, mem: Memory, a: u64)
    requires
        mem.wf_in(s),
    ensures
        s.value_wf(mem.byte_at(a)),
        mem.byte_at(a).width == 8,
{
    lemma2_to64();
}

/// Distinct small offsets land on distinct wrapped addresses.
pub proof fn lemma_addr_off_inj(base: u64, o1: int, o2: int)
    requires
        0 <= o1 < o2 < 0x10000000000000000,
    ensures
        addr_off(base, o1) != addr_off(base, o2),
{
    let mm = 0x10000000000000000;
    let x1 = (base + o1) % mm;
    let x2 = (base + o2) % mm;
    let d = o2 - o1;
    vstd::arithmetic::div_mod::lemma_add_mod_noop(base + o1, d, mm);
    vstd::arithmetic::div_mod::lemma_mod_bound(base + o1, mm);
    vstd::arithmetic::div_mod::lemma_small_mod(d as nat, mm as nat);
    if x1 + d < mm {
        vstd::arithmetic::div_mod::lemma_small_mod((x1 + d) as nat, mm as nat);
    } else {
        vstd::arithmetic::div_mod::lemma_mod_sub_multiples_vanish(x1 + d, mm);
        vstd::arithmetic::div_mod::lemma_small_mod((x1 + d - mm) as nat, mm as nat);
    }
}

/// One execution path's machine state.
pub struct State {
    pub regs: Vec<Value>,
    pub reg_widths: Vec<u32>,
    pub memory: Memory,
    pub solver: Solver,
    pub context: Vec<(String, Vec<Value>)>,
    pub pc: u64,
    pub status: Status,
    pub endian: Endian,
    pub trace: Ghost<Seq<u64>>,
}

/// Every value stored in registers, memory and context stays well formed
/// when the solver is extended.
pub proof fn lemma_state_values_extend(olds: Solver, news: Solver, st: State)
    requires
        olds.exprs@.is_prefix_of(news.exprs@),
        forall|i: int| 0 <= i < st.regs@.len() ==> olds.value_wf(#[trigger] st.regs@[i]),
        st.memory.wf_in(olds),
        forall|i: int, j: int|
            0 <= i < st.context@.len() && 0 <= j < st.context@[i].1@.len() ==> olds.value_wf(
                #[trigger] st.context@[i].1@[j],
            ),
    ensures
        forall|i: int| 0 <= i < st.regs@.len() ==> news.value_wf(#[trigger] st.regs@[i]),
        st.memory.wf_in(news),
        forall|i: int, j: int|
            0 <= i < st.context@.len() && 0 <= j < st.context@[i].1@.len() ==> news.value_wf(
                #[trigger] st.context@[i].1@[j],
            ),
{
    assert forall|i: int| 0 <= i < st.regs@.len() implies news.value_wf(#[trigger] st.regs@[i]) by {
        Solver::lemma_value_wf_extends(olds, news, st.regs@[i]);
    }
    assert forall|a: u64| st.memory.cells@.contains_key(a) implies news.value_wf(
        #[trigger] st.memory.cells@[a],
    ) && st.memory.cells@[a].width == 8 by {
        Solver::lemma_value_wf_extends(olds, news, st.memory.cells@[a]);
    }
    assert forall|i: int, j: int|
        0 <= i < st.context@.len() && 0 <= j < st.context@[i].1@.len() implies news.value_wf(
        #[trigger] st.context@[i].1@[j],
    ) by {
        Solver::lemma_value_wf_extends(olds, news, st.context@[i].1@[j]);
    }
}

/// A read at a possibly symbolic address resolved that address to `a`:
/// the new path condition is the old one plus `addr == a`, and the value
/// read means the composition of the bytes that stood at `a`.
pub open spec fn resolved_read(pre: State, post: State, addr: Value, v: Value, len: u32, a: u64) -> bool {
    &&& forall|m: Seq<u64>| #[trigger] post.solver.holds(m) <==> (pre.solver.holds(m)
        && pre.solver.value_sem(addr, m) == a)
    &&& forall|m: Seq<u64>| #[trigger] post.solver.value_sem(v, m) == compose_sem(
        Seq::new(
            len as nat,
            |i: int| pre.solver.value_sem(
                pre.memory.byte_at(addr_off(a, byte_pos(pre.endian, len as int, i))),
                m,
            ),
        ),
        0,
    )
}

/// There is an entry with key `k` at index `i`, and none earlier.
pub open spec fn first_key(ctx: Seq<(String, Vec<Value>)>, i: int, k: Seq<char>) -> bool {
    &&& 0 <= i < ctx.len()
    &&& ctx[i].0@ == k
    &&& forall|j: int| 0 <= j < i ==> (#[trigger] ctx[j]).0@ != k
}

impl State {
    /// Internal consistency: the solver is well formed and every stored
    /// value belongs to it; registers match the catalogue's widths.
    pub open spec fn wf(self) -> bool {
        &&& self.solver.wf()
        &&& self.regs@.len() == self.reg_widths@.len()
        &&& forall|i: int|
            0 <= i < self.regs@.len() ==> self.solver.value_wf(#[trigger] self.regs@[i])
        &&& forall|i: int|
            0 <= i < self.regs@.len() ==> (#[trigger] self.regs@[i]).width == self.reg_widths@[i]
        &&& forall|i: int| 0 <= i < self.reg_widths@.len() ==> wf_width(#[trigger] self.reg_widths@[i])
        &&& self.memory.wf_in(self.solver)
        &&& forall|i: int, j: int|
            0 <= i < self.context@.len() && 0 <= j < self.context@[i].1@.len()
                ==> self.solver.value_wf(#[trigger] self.context@[i].1@[j])
    }

    /// A concrete value of the given width; the payload is truncated to
    /// the width, exactly as a machine register would hold it.
    pub fn concrete_value(&self, val: u64, width: u32) -> (r: Value)
        requires
            wf_width(width),
        ensures
            r.width == width,
            r.kind == VKind::Concrete(bv_trunc(val, width)),
            forall|s: Solver| s.value_wf(r),
            forall|s: Solver, m: Seq<u64>| #[trigger] s.value_sem(r, m) == bv_trunc(val, width),
            in_width(val, width) ==> r.kind == VKind::Concrete(val),
    {
        proof {
            if in_width(val, width) {
                lemma_small_mod(val as nat, pow2(width as nat));
            }
        }
        let x = exec_bv_trunc(val, width);
        Value { width, kind: VKind::Concrete(x) }
    }

    /// A fresh symbolic value of the given width, registered with this
    /// state's solver under the given name. Under every model of the
    /// grown solver, the value is the model's entry for the new variable.
    pub fn symbolic_value(&mut self, name: &str, width: u32) -> (r: Value)
        requires
            old(self).wf(),
            wf_width(width),
        ensures
            final(self).wf(),
            final(self).solver.extends_loose(old(self).solver),
            final(self).solver.var_widths@ == old(self).solver.var_widths@.push(width),
            final(self).solver.constraints@ == old(self).solver.constraints@,
            final(self).regs@ == old(self).regs@,
            final(self).reg_widths@ == old(self).reg_widths@,
            final(self).memory.cells@ == old(self).memory.cells@,
            final(self).context@ == old(self).context@,
            final(self).pc == old(self).pc,
            final(self).status == old(self).status,
            final(self).endian == old(self).endian,
            final(self).trace == old(self).trace,
            final(self).solver.value_wf(r),
            r.width == width,
            !r.is_concrete(),
            forall|m: Seq<u64>|
                old(self).solver.var_widths@.len() < m.len() ==> final(self).solver.value_sem(r, m)
                    == m[old(self).solver.var_widths@.len() as int],
            forall|m: Seq<u64>| #[trigger]
                final(self).solver.holds(m) == old(self).solver.holds(m),
    {
        let ghost olds = self.solver;
        let r = self.solver.new_var(name.to_owned(), width);
        proof {
            lemma_state_values_extend(olds, self.solver, *self);
        }
        r
    }

    /// The current value of register `i`.
    pub fn get_register(&self, i: usize) -> (r: Value)
        requires
            i < self.regs@.len(),
        ensures
            r == self.regs@[i as int],
    {
        self.regs[i]
    }

    /// Overwrite register `i` with a value of the catalogue's width.
    pub fn set_register(&mut self, i: usize, v: Value)
        requires
            old(self).wf(),
            i < old(self).regs@.len(),
            old(self).solver.value_wf(v),
            v.width == old(self).reg_widths@[i as int],
        ensures
            final(self).wf(),
            final(self).regs@ == old(self).regs@.update(i as int, v),
            final(self).solver == old(self).solver,
            final(self).reg_widths@ == old(self).reg_widths@,
            final(self).memory.cells@ == old(self).memory.cells@,
            final(self).context@ == old(self).context@,
            final(self).pc == old(self).pc,
            final(self).status == old(self).status,
            final(self).endian == old(self).endian,
            final(self).trace == old(self).trace,
    {
        self.regs.set(i, v);
    }

    /// Resolve a possibly symbolic address to one concrete address. A
    /// concrete address resolves to itself with the solver untouched. A
    /// symbolic address is concretized: the oracle picks a witness, the
    /// constraint `address == witness` is added so later accesses agree,
    /// and the witness is returned; if the oracle finds no witness the
    /// access is a `SymbolicAddress` error and the path condition is
    /// unchanged.
    pub fn resolve_address(&mut self, addr: &Value) -> (r: Result<u64, RadiusError>)
        requires
            old(self).wf(),
            old(self).solver.value_wf(*addr),
        ensures
            final(self).wf(),
            final(self).solver.extends_loose(old(self).solver),
            final(self).regs@ == old(self).regs@,
            final(self).reg_widths@ == old(self).reg_widths@,
            final(self).memory.cells@ == old(self).memory.cells@,
            final(self).context@ == old(self).context@,
            final(self).pc == old(self).pc,
            final(self).status == old(self).status,
            final(self).endian == old(self).endian,
            final(self).trace == old(self).trace,
            final(self).solver.var_widths@ == old(self).solver.var_widths@,
            addr.is_concrete() ==> r is Ok && final(self).solver == old(self).solver,
            r matches Ok(a) ==> forall|m: Seq<u64>| #[trigger] final(self).solver.holds(m) <==> (
            old(self).solver.holds(m) && old(self).solver.value_sem(*addr, m) == a),
            r is Err ==> r == Err::<u64, RadiusError>(RadiusError::SymbolicAddress) && forall|
                m: Seq<u64>,
            | #[trigger] final(self).solver.holds(m) == old(self).solver.holds(m),
    {
        let ghost olds = self.solver;
        match addr.kind {
            VKind::Concrete(a) => {
                proof {
                    lemma_extends_loose_refl(self.solver);
                    assert forall|m: Seq<u64>| #[trigger] self.solver.holds(m) <==> (
                    olds.holds(m) && olds.value_sem(*addr, m) == a) by {}
                }
                Ok(a)
            },
            VKind::Symbolic(_) => {
                match self.solver.eval_to_u64(addr) {
                    None => {
                        proof {
                            lemma_extends_loose_refl(self.solver);
                        }
                        Err(RadiusError::SymbolicAddress)
                    },
                    Some(a) => {
                        proof {
                            let mw = choose|m: Seq<u64>|
                                olds.model_ok(m) && olds.holds(m) && a == olds.value_sem(*addr, m);
                            if let VKind::Symbolic(i) = addr.kind {
                                crate::solver::lemma_eval_in_width(
                                    olds.exprs@,
                                    olds.var_widths@,
                                    i as int,
                                    mw,
                                );
                            }
                        }
                        let lit = Value { width: addr.width, kind: VKind::Concrete(a) };
                        let eq = match self.solver.apply_bin(BinOp::Eq, addr, &lit) {
                            Ok(v) => v,
                            Err(_) => vstd::pervasive::unreached(),
                        };
                        let ghost mids = self.solver;
                        self.solver.add_constraint(&eq);
                        proof {
                            lemma_state_values_extend(olds, self.solver, *self);
                            lemma_prefix_trans(olds.exprs@, mids.exprs@, self.solver.exprs@);
                            assert(olds.var_widths@.is_prefix_of(self.solver.var_widths@)) by {
                                lemma_prefix_refl(self.solver.var_widths@);
                            }
                            assert(olds.constraints@.is_prefix_of(self.solver.constraints@)) by {
                                assert(olds.constraints@ =~= self.solver.constraints@.subrange(
                                    0,
                                    olds.constraints@.len() as int,
                                ));
                            }
                            assert forall|m: Seq<u64>| #[trigger] self.solver.holds(m) <==> (
                            olds.holds(m) && olds.value_sem(*addr, m) == a) by {
                                assert(self.solver.holds(m) <==> (mids.holds(m) && mids.value_sem(
                                    eq,
                                    m,
                                ) == 1));
                                assert(mids.value_sem(eq, m) == crate::value::bv_bin(
                                    BinOp::Eq,
                                    olds.value_sem(*addr, m),
                                    olds.value_sem(lit, m),
                                    addr.width,
                                ));
                            }
                        }
                        Ok(a)
                    },
                }
            },
        }
    }

    /// Write an `len`-byte value at a concrete address, decomposing it
    /// into bytes in this state's byte order. Afterwards the `len`
    /// addressed cells hold exactly the value's bytes and every other
    /// cell is unchanged.
    pub fn memory_write(&mut self, addr: u64, value: &Value, len: u32)
        requires
            old(self).wf(),
            old(self).solver.value_wf(*value),
            1 <= len <= 8,
            value.width == 8 * len,
        ensures
            final(self).wf(),
            final(self).solver.extends(old(self).solver),
            final(self).regs@ == old(self).regs@,
            final(self).reg_widths@ == old(self).reg_widths@,
            final(self).context@ == old(self).context@,
            final(self).pc == old(self).pc,
            final(self).status == old(self).status,
            final(self).endian == old(self).endian,
            final(self).trace == old(self).trace,
            forall|i: int|
                0 <= i < len ==> (#[trigger] final(self).memory.byte_at(
                    addr_off(addr, byte_pos(final(self).endian, len as int, i)),
                )).width == 8,
            forall|i: int, m: Seq<u64>|
                0 <= i < len ==> #[trigger] final(self).solver.value_sem(
                    final(self).memory.byte_at(
                        addr_off(addr, byte_pos(final(self).endian, len as int, i)),
                    ),
                    m,
                ) == bv_byte(old(self).solver.value_sem(*value, m), i as u32),
            forall|a: u64|
                (forall|i: int| 0 <= i < len ==> a != addr_off(addr, i)) ==> final(self).memory.byte_at(a) == old(self).memory.byte_at(a),
            forall|m: Seq<u64>| #[trigger] final(self).solver.holds(m) == old(self).solver.holds(
                m,
            ),
    {
        let ghost olds = self.solver;
        let ghost oldmem = self.memory;
        proof {
            lemma_prefix_refl(olds.exprs@);
        }
        let big = matches!(self.endian, Endian::Big);
        let mut i: u32 = 0;
        while i < len
            invariant
                self.wf(),
                old(self).wf(),
                olds == old(self).solver,
                oldmem == old(self).memory,
                olds.value_wf(*value),
                forall|m: Seq<u64>| #[trigger] self.solver.holds(m) == olds.holds(m),
                1 <= len <= 8,
                value.width == 8 * len,
                0 <= i <= len,
                self.solver.extends(olds),
                self.regs@ == old(self).regs@,
                self.reg_widths@ == old(self).reg_widths@,
                self.context@ == old(self).context@,
                self.pc == old(self).pc,
                self.status == old(self).status,
                self.endian == old(self).endian,
                self.trace == old(self).trace,
                big == (self.endian is Big),
                forall|k: int|
                    0 <= k < i ==> (#[trigger] self.memory.byte_at(
                        addr_off(addr, byte_pos(self.endian, len as int, k)),
                    )).width == 8,
                forall|k: int, m: Seq<u64>|
                    0 <= k < i ==> #[trigger] self.solver.value_sem(
                        self.memory.byte_at(
                            addr_off(addr, byte_pos(self.endian, len as int, k)),
                        ),
                        m,
                    ) == bv_byte(olds.value_sem(*value, m), k as u32),
                forall|a: u64|
                    (forall|k: int| 0 <= k < len ==> a != addr_off(addr, k)) ==> self.memory.byte_at(
                        a,
                    ) == oldmem.byte_at(a),
            decreases len - i,
        {
            let ghost pres = self.solver;
            let b = self.solver.byte_of(value, i);
            proof {
                lemma_state_values_extend(pres, self.solver, *self);
                lemma_prefix_trans(olds.exprs@, pres.exprs@, self.solver.exprs@);
            }
            let pos: u32 = if big {
                len - 1 - i
            } else {
                i
            };
            let a = exec_addr_off(addr, pos);
            let ghost premem = self.memory;
            self.memory.write_byte(a, b);
            proof {
                assert(a == addr_off(addr, byte_pos(self.endian, len as int, i as int)));
                assert forall|k: int, m: Seq<u64>| 0 <= k < i + 1 implies #[trigger] self.solver.value_sem(
                    self.memory.byte_at(
                        addr_off(addr, byte_pos(self.endian, len as int, k)),
                    ),
                    m,
                ) == bv_byte(olds.value_sem(*value, m), k as u32) by {
                    let pk = addr_off(addr, byte_pos(self.endian, len as int, k));
                    if k < i {
                        assert(byte_pos(self.endian, len as int, k) != byte_pos(
                            self.endian,
                            len as int,
                            i as int,
                        ));
                        lemma_addr_off_inj(
                            addr,
                            if byte_pos(self.endian, len as int, k) < byte_pos(
                                self.endian,
                                len as int,
                                i as int,
                            ) {
                                byte_pos(self.endian, len as int, k)
                            } else {
                                byte_pos(self.endian, len as int, i as int)
                            },
                            if byte_pos(self.endian, len as int, k) < byte_pos(
                                self.endian,
                                len as int,
                                i as int,
                            ) {
                                byte_pos(self.endian, len as int, i as int)
                            } else {
                                byte_pos(self.endian, len as int, k)
                            },
                        );
                        assert(pk != a);
                        assert(self.memory.byte_at(pk) == premem.byte_at(pk));
                        lemma_byte_wf(pres, premem, pk);
                        Solver::lemma_extends_sem(
                            pres,
                            self.solver,
                            premem.byte_at(pk),
                            m,
                        );
                    } else {
                        assert(self.memory.byte_at(pk) == b);
                        Solver::lemma_extends_sem(olds, pres, *value, m);
                    }
                }
                assert forall|a2: u64|
                    (forall|k: int| 0 <= k < len ==> a2 != addr_off(addr, k)) implies self.memory.byte_at(a2) == oldmem.byte_at(a2) by {
                    assert(a2 != a);
                    assert(premem.byte_at(a2) == oldmem.byte_at(a2));
                }
            }
            i = i + 1;
        }
    }

    /// Read `len` bytes at a concrete address and compose them, in this
    /// state's byte order, into one `8 * len`-bit value. The result means
    /// the composition of the addressed bytes' meanings under every model.
    pub fn memory_read(&mut self, addr: u64, len: u32) -> (r: Value)
        requires
            old(self).wf(),
            1 <= len <= 8,
        ensures
            final(self).wf(),
            final(self).solver.extends(old(self).solver),
            final(self).regs@ == old(self).regs@,
            final(self).reg_widths@ == old(self).reg_widths@,
            final(self).memory.cells@ == old(self).memory.cells@,
            final(self).context@ == old(self).context@,
            final(self).pc == old(self).pc,
            final(self).status == old(self).status,
            final(self).endian == old(self).endian,
            final(self).trace == old(self).trace,
            final(self).solver.value_wf(r),
            r.width == 8 * len,
            forall|m: Seq<u64>| #[trigger] final(self).solver.holds(m) == old(self).solver.holds(
                m,
            ),
            forall|m: Seq<u64>| #[trigger] final(self).solver.value_sem(r, m) == compose_sem(
                Seq::new(
                    len as nat,
                    |i: int| old(self).solver.value_sem(
                        old(self).memory.byte_at(
                            addr_off(addr, byte_pos(old(self).endian, len as int, i)),
                        ),
                        m,
                    ),
                ),
                0,
            ),
    {
        let ghost olds = self.solver;
        let big = matches!(self.endian, Endian::Big);
        let top: u32 = len - 1;
        let postop: u32 = if big {
            0
        } else {
            top
        };
        let mut acc = self.memory.read_byte(exec_addr_off(addr, postop));
        proof {
            assert(acc == self.memory.byte_at(
                addr_off(addr, byte_pos(self.endian, len as int, top as int)),
            ));
            lemma_byte_wf(self.solver, self.memory, addr_off(addr, byte_pos(self.endian, len as int, top as int)));
            lemma_extends_loose_refl(olds);
            lemma_prefix_refl(olds.exprs@);
        }
        let mut k: u32 = top;
        while k > 0
            invariant
                self.wf(),
                old(self).wf(),
                olds == old(self).solver,
                forall|m: Seq<u64>| #[trigger] self.solver.holds(m) == olds.holds(m),
                1 <= len <= 8,
                top == len - 1,
                0 <= k <= top,
                self.solver.extends(olds),
                self.regs@ == old(self).regs@,
                self.reg_widths@ == old(self).reg_widths@,
                self.memory.cells@ == old(self).memory.cells@,
                self.context@ == old(self).context@,
                self.pc == old(self).pc,
                self.status == old(self).status,
                self.endian == old(self).endian,
                self.trace == old(self).trace,
                big == (self.endian is Big),
                self.solver.value_wf(acc),
                acc.width == 8 * (len - k),
                forall|m: Seq<u64>| #[trigger] self.solver.value_sem(acc, m) == compose_sem(
                    Seq::new(
                        len as nat,
                        |i: int| olds.value_sem(
                            old(self).memory.byte_at(
                                addr_off(addr, byte_pos(old(self).endian, len as int, i)),
                            ),
                            m,
                        ),
                    ),
                    k as int,
                ),
            decreases k,
        {
            let kk = k - 1;
            let pos: u32 = if big {
                len - 1 - kk
            } else {
                kk
            };
            let b = self.memory.read_byte(exec_addr_off(addr, pos));
            proof {
                assert(b == self.memory.byte_at(
                    addr_off(addr, byte_pos(self.endian, len as int, kk as int)),
                ));
            }
            proof {
                lemma_byte_wf(self.solver, self.memory, addr_off(addr, byte_pos(self.endian, len as int, kk as int)));
            }
            let ghost pres = self.solver;
            let acc2 = self.solver.concat(&acc, &b);
            proof {
                lemma_state_values_extend(pres, self.solver, *self);
                lemma_prefix_trans(olds.exprs@, pres.exprs@, self.solver.exprs@);
                assert forall|m: Seq<u64>| #[trigger] self.solver.value_sem(acc2, m)
                    == compose_sem(
                    Seq::new(
                        len as nat,
                        |i: int| olds.value_sem(
                            old(self).memory.byte_at(
                                addr_off(addr, byte_pos(old(self).endian, len as int, i)),
                            ),
                            m,
                        ),
                    ),
                    kk as int,
                ) by {
                    let bs = Seq::new(
                        len as nat,
                        |i: int| olds.value_sem(
                            old(self).memory.byte_at(
                                addr_off(addr, byte_pos(old(self).endian, len as int, i)),
                            ),
                            m,
                        ),
                    );
                    Solver::lemma_extends_sem(olds, pres, b, m);
                    assert(pres.value_sem(b, m) == bs[kk as int]);
                    assert(compose_sem(bs, kk as int) == bv_concat(
                        compose_sem(bs, kk as int + 1),
                        bs[kk as int],
                        8,
                    ));
                }
            }
            acc = acc2;
            k = kk;
        }
        acc
    }

    /// Write a value of `8 * len` bits at a possibly symbolic address.
    pub fn memory_write_value(&mut self, addr: &Value, value: &Value, len: u32) -> (r: Result<
        u64,
        RadiusError,
    >)
        requires
            old(self).wf(),
            old(self).solver.value_wf(*addr),
            old(self).solver.value_wf(*value),
            1 <= len <= 8,
            value.width == 8 * len,
        ensures
            final(self).wf(),
            final(self).regs@ == old(self).regs@,
            final(self).reg_widths@ == old(self).reg_widths@,
            final(self).context@ == old(self).context@,
            final(self).pc == old(self).pc,
            final(self).status == old(self).status,
            final(self).endian == old(self).endian,
            final(self).trace == old(self).trace,
            final(self).solver.extends_loose(old(self).solver),
            final(self).solver.var_widths@ == old(self).solver.var_widths@,
            addr.is_concrete() ==> r is Ok,
            r is Err ==> r == Err::<u64, RadiusError>(RadiusError::SymbolicAddress) && final(self).memory.cells@ == old(self).memory.cells@,
            r matches Ok(a) ==> {
                &&& forall|i: int, m: Seq<u64>|
                    0 <= i < len ==> #[trigger] final(self).solver.value_sem(
                        final(self).memory.byte_at(
                            addr_off(a, byte_pos(final(self).endian, len as int, i)),
                        ),
                        m,
                    ) == bv_byte(old(self).solver.value_sem(*value, m), i as u32)
                &&& forall|b: u64|
                    (forall|i: int| 0 <= i < len ==> b != addr_off(a, i)) ==> final(self).memory.byte_at(b) == old(self).memory.byte_at(b)
                &&& forall|m: Seq<u64>| #[trigger] final(self).solver.holds(m) <==> (old(self).solver.holds(m) && old(self).solver.value_sem(*addr, m) == a)
            },
    {
        let ghost olds = self.solver;
        let a = match self.resolve_address(addr) {
            Ok(a) => a,
            Err(e) => {
                return Err(e);
            },
        };
        let ghost mids = self.solver;
        proof {
            Solver::lemma_value_wf_extends(olds, mids, *value);
        }
        self.memory_write(a, value, len);
        proof {
            assert forall|i: int, m: Seq<u64>| 0 <= i < len implies #[trigger] self.solver.value_sem(
                self.memory.byte_at(
                    addr_off(a, byte_pos(self.endian, len as int, i)),
                ),
                m,
            ) == bv_byte(olds.value_sem(*value, m), i as u32) by {
                Solver::lemma_extends_sem(olds, mids, *value, m);
            }
            assert forall|m: Seq<u64>| #[trigger] self.solver.holds(m) <==> (olds.holds(m)
                && olds.value_sem(*addr, m) == a) by {
                assert(self.solver.holds(m) == mids.holds(m));
            }
        }
        Ok(a)
    }

    /// Read an `8 * len`-bit value at a possibly symbolic address.
    pub fn memory_read_value(&mut self, addr: &Value, len: u32) -> (r: Result<Value, RadiusError>)
        requires
            old(self).wf(),
            old(self).solver.value_wf(*addr),
            1 <= len <= 8,
        ensures
            final(self).wf(),
            final(self).regs@ == old(self).regs@,
            final(self).reg_widths@ == old(self).reg_widths@,
            final(self).memory.cells@ == old(self).memory.cells@,
            final(self).context@ == old(self).context@,
            final(self).pc == old(self).pc,
            final(self).status == old(self).status,
            final(self).endian == old(self).endian,
            final(self).trace == old(self).trace,
            final(self).solver.extends_loose(old(self).solver),
            final(self).solver.var_widths@ == old(self).solver.var_widths@,
            addr.is_concrete() ==> r is Ok,
            r is Err ==> r == Err::<Value, RadiusError>(RadiusError::SymbolicAddress),
            r matches Ok(v) ==> {
                &&& final(self).solver.value_wf(v)
                &&& v.width == 8 * len
                &&& exists|a: u64| #[trigger] resolved_read(*old(self), *final(self), *addr, v, len, a)
            },
    {
        let ghost olds = self.solver;
        let a = match self.resolve_address(addr) {
            Ok(a) => a,
            Err(e) => {
                return Err(e);
            },
        };
        let ghost mids = self.solver;
        let ghost midmem = self.memory;
        let v = self.memory_read(a, len);
        proof {
            assert forall|m: Seq<u64>| #[trigger] self.solver.value_sem(v, m) == compose_sem(
                Seq::new(
                    len as nat,
                    |i: int| olds.value_sem(
                        old(self).memory.byte_at(
                            addr_off(a, byte_pos(old(self).endian, len as int, i)),
                        ),
                        m,
                    ),
                ),
                0,
            ) by {
                let bsm = Seq::new(
                    len as nat,
                    |i: int| mids.value_sem(
                        midmem.byte_at(addr_off(a, byte_pos(old(self).endian, len as int, i))),
                        m,
                    ),
                );
                let bs2 = Seq::new(
                    len as nat,
                    |i: int| olds.value_sem(
                        old(self).memory.byte_at(
                            addr_off(a, byte_pos(old(self).endian, len as int, i)),
                        ),
                        m,
                    ),
                );
                assert(self.solver.value_sem(v, m) == compose_sem(bsm, 0));
                assert forall|i: int| 0 <= i < len implies bsm[i] == bs2[i] by {
                    let x = addr_off(a, byte_pos(old(self).endian, len as int, i));
                    assert(midmem.byte_at(x) == old(self).memory.byte_at(x));
                    lemma_byte_wf(olds, old(self).memory, x);
                    Solver::lemma_extends_sem(olds, mids, old(self).memory.byte_at(x), m);
                }
                assert(bsm =~= bs2);
            }
            assert forall|m: Seq<u64>| #[trigger] self.solver.holds(m) <==> (olds.holds(m)
                && olds.value_sem(*addr, m) == a) by {
                assert(self.solver.holds(m) == mids.holds(m));
            }
            assert(resolved_read(*old(self), *self, *addr, v, len, a));
        }
        Ok(v)
    }

    /// Append a value to the context sequence under `key`, creating the
    /// entry if the key is new.
    pub fn context_push(&mut self, key: &str, v: Value)
        requires
            old(self).wf(),
            old(self).solver.value_wf(v),
        ensures
            final(self).wf(),
            final(self).solver == old(self).solver,
            final(self).regs@ == old(self).regs@,
            final(self).reg_widths@ == old(self).reg_widths@,
            final(self).memory.cells@ == old(self).memory.cells@,
            final(self).pc == old(self).pc,
            final(self).status == old(self).status,
            final(self).endian == old(self).endian,
            final(self).trace == old(self).trace,
            (forall|i: int|
                0 <= i < old(self).context@.len() ==> (#[trigger] old(self).context@[i]).0@
                    != key@) ==> final(self).context@.len() == old(self).context@.len() + 1 && final(self).context@[old(self).context@.len() as int].0@ == key@ && final(self).context@[old(self).context@.len() as int].1@ =~= seq![v] && forall|j: int|
                0 <= j < old(self).context@.len() ==> final(self).context@[j] == old(self).context@[j],
            forall|i: int|
                first_key(old(self).context@, i, key@) ==> final(self).context@.len() == old(self).context@.len() && (#[trigger] final(self).context@[i]).0 == old(self).context@[i].0 && final(self).context@[i].1@ == old(self).context@[i].1@.push(v)
                    && forall|j: int|
                    0 <= j < old(self).context@.len() && j != i ==> final(self).context@[j] == old(self).context@[j],
    {
        let n = self.context.len();
        let mut i: usize = 0;
        while i < n
            invariant
                self.wf(),
                old(self).wf(),
                old(self).solver.value_wf(v),
                *self == *old(self),
                n == self.context@.len(),
                0 <= i <= n,
                forall|j: int| 0 <= j < i ==> (#[trigger] self.context@[j]).0@ != key@,
            decreases n - i,
        {
            if str_eq(self.context[i].0.as_str(), key) {
                proof {
                    assert(first_key(self.context@, i as int, key@));
                }
                let ghost oldctx = self.context@;
                let mut entry = self.context.remove(i);
                entry.1.push(v);
                self.context.insert(i, entry);
                proof {
                    assert(self.context@ == oldctx.update(i as int, (oldctx[i as int].0, entry.1)));
                    assert forall|j: int|
                        0 <= j < oldctx.len() && j != i implies self.context@[j] == oldctx[j] by {}
                    assert forall|ii: int| first_key(oldctx, ii, key@) implies ii == i by {}
                    assert forall|ii: int, jj: int|
                        0 <= ii < self.context@.len() && 0 <= jj < self.context@[ii].1@.len()
                            implies self.solver.value_wf(#[trigger] self.context@[ii].1@[jj]) by {
                        if ii == i {
                            if jj < oldctx[ii].1@.len() {
                                assert(self.context@[ii].1@[jj] == oldctx[ii].1@[jj]);
                            } else {
                                assert(self.context@[ii].1@[jj] == v);
                            }
                        }
                    }
                }
                return ;
            }
            i = i + 1;
        }
        let ghost prectx = self.context@;
        self.context.push((key.to_owned(), vec![v]));
        proof {
            assert(self.context@[prectx.len() as int].1@ =~= seq![v]);
            assert forall|ii: int, jj: int|
                0 <= ii < self.context@.len() && 0 <= jj < self.context@[ii].1@.len()
                    implies self.solver.value_wf(#[trigger] self.context@[ii].1@[jj]) by {
                if ii < prectx.len() {
                    assert(self.context@[ii] == prectx[ii]);
                } else {
                    assert(self.context@[ii].1@[jj] == v);
                }
            }
        }
    }

    /// The values recorded under `key`, if any.
    pub fn context_get(&self, key: &str) -> (r: Option<&Vec<Value>>)
        ensures
            r matches Some(vs) ==> exists|i: int|
                first_key(self.context@, i, key@) && vs@ == self.context@[i].1@,
            r is None ==> forall|i: int|
                0 <= i < self.context@.len() ==> (#[trigger] self.context@[i]).0@ != key@,
    {
        let n = self.context.len();
        let mut i: usize = 0;
        while i < n
            invariant
                n == self.context@.len(),
                0 <= i <= n,
                forall|j: int| 0 <= j < i ==> (#[trigger] self.context@[j]).0@ != key@,
            decreases n - i,
        {
            if str_eq(self.context[i].0.as_str(), key) {
                proof {
                    assert(first_key(self.context@, i as int, key@));
                }
                return Some(&self.context[i].1);
            }
            i = i + 1;
        }
        None
    }
}

impl State {
    /// Fork this state: an independent copy with the same registers,
    /// memory, context, path condition, program counter and trace. The
    /// copy owns its own solver context, so constraining one path never
    /// affects the other.
    pub fn fork(&self) -> (r: State)
        requires
            self.wf(),
        ensures
            r.wf(),
            r.solver.exprs@ == self.solver.exprs@,
            r.solver.var_widths@ == self.solver.var_widths@,
            r.solver.constraints@ == self.solver.constraints@,
            forall|m: Seq<u64>| #[trigger] r.solver.holds(m) == self.solver.holds(m),
            forall|v: Value, m: Seq<u64>| #[trigger] r.solver.value_sem(v, m)
                == self.solver.value_sem(v, m),
            forall|v: Value| #[trigger] r.solver.value_wf(v) == self.solver.value_wf(v),
            forall|m: Seq<u64>| #[trigger] r.solver.model_ok(m) == self.solver.model_ok(m),
            r.regs@ == self.regs@,
            r.reg_widths@ == self.reg_widths@,
            r.memory.cells@ == self.memory.cells@,
            r.context@.len() == self.context@.len(),
            forall|i: int|
                0 <= i < self.context@.len() ==> (#[trigger] r.context@[i]).0@
                    == self.context@[i].0@ && r.context@[i].1@ == self.context@[i].1@,
            r.pc == self.pc,
            r.status == self.status,
            r.endian == self.endian,
            r.trace == self.trace,
    {
        let regs = crate::solver::copy_vec(&self.regs);
        let reg_widths = crate::solver::copy_vec(&self.reg_widths);
        let memory = self.memory.clone();
        let solver = self.solver.duplicate();
        let mut context: Vec<(String, Vec<Value>)> = Vec::new();
        let n = self.context.len();
        let mut i: usize = 0;
        while i < n
            invariant
                n == self.context@.len(),
                0 <= i <= n,
                context@.len() == i,
                forall|j: int|
                    0 <= j < i ==> (#[trigger] context@[j]).0@ == self.context@[j].0@
                        && context@[j].1@ == self.context@[j].1@,
            decreases n - i,
        {
            let key = self.context[i].0.clone();
            let vals = crate::solver::copy_vec(&self.context[i].1);
            context.push((key, vals));
            i = i + 1;
        }
        State {
            regs,
            reg_widths,
            memory,
            solver,
            context,
            pc: self.pc,
            status: self.status,
            endian: self.endian,
            trace: Ghost(self.trace@),
        }
    }
}

/// Composing exactly the bytes of a value yields the value back: the
/// memory round trip. `bs[i]` must be byte `i` (by significance) of `v`,
/// which is how a write decomposes `v`; composing them, as a read does,
/// restores `v` exactly, whatever the byte order placed them at.
pub proof fn lemma_compose_decompose(v: u64, bs: Seq<u64>, len: int)
    requires
        1 <= len <= 8,
        bs.len() == len,
        (v as nat) < pow2((8 * len) as nat),
        forall|i: int| 0 <= i < len ==> #[trigger] bs[i] == bv_byte(v, i as u32),
    ensures
        compose_sem(bs, 0) == v,
{
    lemma_compose_decompose_from(v, bs, len, 0);
    lemma_pow2_le_64((8 * len) as u32);
    lemma2_to64();
    assert(pow2(0) == 1);
    vstd::arithmetic::div_mod::lemma_div_basics(v as int);
    assert((v as nat) / pow2(0) == v as nat);
    lemma_small_mod(v as nat, pow2((8 * len) as nat));
}

/// Generalised round trip: composing the bytes of `v` from significance
/// `k` up yields the middle bits of `v`.
proof fn lemma_compose_decompose_from(v: u64, bs: Seq<u64>, len: int, k: int)
    requires
        1 <= len <= 8,
        bs.len() == len,
        (v as nat) < pow2((8 * len) as nat),
        forall|i: int| 0 <= i < len ==> #[trigger] bs[i] == bv_byte(v, i as u32),
        0 <= k < len,
    ensures
        compose_sem(bs, k) == ((v as nat / pow2((8 * k) as nat)) % pow2((8 * (len - k)) as nat)),
    decreases len - k,
{
    lemma_pow2_pos((8 * k) as nat);
    lemma_pow2_pos((8 * (len - k)) as nat);
    lemma_pow2_le_64((8 * len) as u32);
    lemma_pow2_le_64((8 * (len - k)) as u32);
    let u = (v as nat) / pow2((8 * k) as nat);
    if k == len - 1 {
        assert(bs[k] == bv_byte(v, k as u32));
        lemma2_to64();
        assert(pow2(8) == 256);
        assert(compose_sem(bs, k) == bs[k]);
    } else {
        lemma_compose_decompose_from(v, bs, len, k + 1);
        assert(compose_sem(bs, k) == bv_concat(compose_sem(bs, k + 1), bs[k], 8));
        lemma2_to64();
        assert(pow2(8) == 256);
        // u / 256 is the value shifted one more byte down
        lemma_pow2_adds((8 * k) as nat, 8);
        vstd::arithmetic::div_mod::lemma_div_denominator(
            v as int,
            pow2((8 * k) as nat) as int,
            256,
        );
        assert(u / 256 == (v as nat) / pow2((8 * (k + 1)) as nat));
        // split the middle bits of u into its low byte and the rest
        lemma_pow2_adds(8, (8 * (len - k - 1)) as nat);
        lemma_mod_breakdown(
            u as int,
            256,
            pow2((8 * (len - k - 1)) as nat) as int,
        );
        assert(u % pow2((8 * (len - k)) as nat) == 256 * ((u / 256) % pow2(
            (8 * (len - k - 1)) as nat,
        )) + u % 256);
        assert(bs[k] == (u % 256) as u64);
        assert(bv_concat(compose_sem(bs, k + 1), bs[k], 8) == (compose_sem(bs, k + 1) * 256
            + bs[k]) as u64);
    }
}

} // verus!
