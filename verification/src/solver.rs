//! The solver adapter: an arena of symbolic bitvector expressions, the
//! constraint store (path condition), and a concretization oracle. The
//! oracle is deliberately simple and sound: it answers `Sat` only with a
//! model it has checked against every constraint, answers `Unsat` only
//! for a store it has proved contradictory, and says `Unknown` otherwise.
//! Each machine state owns one `Solver`, cloned at fork time, so adding a
//! constraint to one path never affects a sibling.

use vstd::prelude::*;

verus! {

use crate::value::{
    BinOp,
    VKind,
    Value,
    bin_width,
    bool_bit,
    bv_bin,
    bv_byte,
    bv_concat,
    bv_not,
    bv_sext,
    bv_trunc,
    exec_bv_bin,
    exec_bv_byte,
    exec_bv_concat,
    exec_bv_not,
    exec_bv_sext,
    exec_bv_trunc,
    in_width,
    lemma_bv_bin_in_width,
    lemma_bv_byte_in_width,
    lemma_bv_concat_in_width,
    lemma_bv_not_in_width,
    lemma_bv_sext_in_width,
    lemma_bv_trunc_in_width,
    wf_width,
};
use crate::RadiusError;

/// One node of the expression arena. Children are arena indices and
/// always point at earlier entries.
#[derive(Clone, Copy, PartialEq, Eq, Structural, Debug)]
pub enum Node {
    Var(usize),
    Cst(u64),
    Bin(BinOp, usize, usize),
    Not(usize),
    Zext(usize),
    Sext(usize),
    Trunc(usize),
    Concat(usize, usize),
    Byte(usize, u32),
}

/// An arena entry: a node and the bit width of the value it denotes.
#[derive(Clone, Copy, PartialEq, Eq, Structural, Debug)]
pub struct Expr {
    pub width: u32,
    pub node: Node,
}

/// Well-formedness of the arena entry at `i`: children point strictly
/// earlier, widths are legal and consistent.
pub open spec fn node_wf(exprs: Seq<Expr>, nvars: Seq<u32>, i: int) -> bool {
    let e = exprs[i];
    wf_width(e.width) && match e.node {
        Node::Var(v) => v < nvars.len() && e.width == nvars[v as int],
        Node::Cst(c) => in_width(c, e.width),
        Node::Bin(op, l, r) => l < i && r < i && exprs[l as int].width == exprs[r as int].width
            && e.width == bin_width(op, exprs[l as int].width),
        Node::Not(a) => a < i && e.width == exprs[a as int].width,
        Node::Zext(a) => a < i && e.width >= exprs[a as int].width,
        Node::Sext(a) => a < i && e.width >= exprs[a as int].width,
        Node::Trunc(a) => a < i && e.width <= exprs[a as int].width,
        Node::Concat(h, l) => h < i && l < i && e.width == exprs[h as int].width + exprs[
            l as int
        ].width,
        Node::Byte(a, bi) => a < i && e.width == 8 && 8 * bi + 8 <= exprs[a as int].width,
    }
}

/// Well-formedness of a whole arena against a variable catalogue.
pub open spec fn arena_wf(exprs: Seq<Expr>, nvars: Seq<u32>) -> bool {
    &&& forall|i: int| 0 <= i < exprs.len() ==> node_wf(exprs, nvars, i)
    &&& forall|v: int| 0 <= v < nvars.len() ==> wf_width(#[trigger] nvars[v])
}

/// Pushing an entry that is well formed at its position onto a
/// well-formed arena keeps every entry well formed.
pub proof fn lemma_arena_wf_push(exprs: Seq<Expr>, nvars: Seq<u32>, e: Expr)
    requires
        arena_wf(exprs, nvars),
        node_wf(exprs.push(e), nvars, exprs.len() as int),
    ensures
        forall|i: int| 0 <= i < exprs.push(e).len() ==> node_wf(exprs.push(e), nvars, i),
{
    assert forall|i: int| 0 <= i < exprs.push(e).len() implies node_wf(exprs.push(e), nvars, i) by {
        if i < exprs.len() {
            assert(node_wf(exprs, nvars, i));
        }
    }
}

/// A model assigns each variable a value inside its width.
pub open spec fn model_valid(nvars: Seq<u32>, m: Seq<u64>) -> bool {
    &&& m.len() == nvars.len()
    &&& forall|v: int| 0 <= v < m.len() ==> in_width(#[trigger] m[v], nvars[v])
}

/// The value the arena entry at `i` takes under model `m`.
pub open spec fn eval_at(exprs: Seq<Expr>, i: int, m: Seq<u64>) -> u64
    decreases i,
{
    if 0 <= i < exprs.len() {
        let e = exprs[i];
        match e.node {
            Node::Var(v) => if v < m.len() {
                m[v as int]
            } else {
                0
            },
            Node::Cst(c) => c,
            Node::Bin(op, l, r) => if l < i && r < i {
                bv_bin(op, eval_at(exprs, l as int, m), eval_at(exprs, r as int, m), exprs[
                    l as int
                ].width)
            } else {
                0
            },
            Node::Not(a) => if a < i {
                bv_not(eval_at(exprs, a as int, m), e.width)
            } else {
                0
            },
            Node::Zext(a) => if a < i {
                eval_at(exprs, a as int, m)
            } else {
                0
            },
            Node::Sext(a) => if a < i {
                bv_sext(eval_at(exprs, a as int, m), exprs[a as int].width, e.width)
            } else {
                0
            },
            Node::Trunc(a) => if a < i {
                bv_trunc(eval_at(exprs, a as int, m), e.width)
            } else {
                0
            },
            Node::Concat(h, l) => if h < i && l < i {
                bv_concat(eval_at(exprs, h as int, m), eval_at(exprs, l as int, m), exprs[
                    l as int
                ].width)
            } else {
                0
            },
            Node::Byte(a, bi) => if a < i {
                bv_byte(eval_at(exprs, a as int, m), bi)
            } else {
                0
            },
        }
    } else {
        0
    }
}

/// All listed constraints are true (equal to one) under `m`.
pub open spec fn holds_all(exprs: Seq<Expr>, cs: Seq<usize>, m: Seq<u64>) -> bool {
    forall|j: int| 0 <= j < cs.len() ==> eval_at(exprs, #[trigger] cs[j] as int, m) == 1
}

/// Evaluation only looks at the prefix of the arena up to `i`, so
/// extending the arena never changes the value of an existing entry.
pub proof fn lemma_eval_prefix(exprs: Seq<Expr>, ext: Seq<Expr>, nvars: Seq<u32>, i: int, m: Seq<u64>)
    requires
        arena_wf(exprs, nvars),
        exprs.is_prefix_of(ext),
        0 <= i < exprs.len(),
    ensures
        eval_at(ext, i, m) == eval_at(exprs, i, m),
    decreases i,
{
    assert(node_wf(exprs, nvars, i));
    assert(ext[i] == exprs[i]);
    let e = exprs[i];
    match e.node {
        Node::Bin(op, l, r) => {
            lemma_eval_prefix(exprs, ext, nvars, l as int, m);
            lemma_eval_prefix(exprs, ext, nvars, r as int, m);
        },
        Node::Not(a) | Node::Zext(a) | Node::Sext(a) | Node::Trunc(a) => {
            lemma_eval_prefix(exprs, ext, nvars, a as int, m);
        },
        Node::Concat(h, l) => {
            lemma_eval_prefix(exprs, ext, nvars, h as int, m);
            lemma_eval_prefix(exprs, ext, nvars, l as int, m);
        },
        Node::Byte(a, bi) => {
            lemma_eval_prefix(exprs, ext, nvars, a as int, m);
        },
        _ => {},
    }
}

/// Under a valid model every well-formed entry evaluates inside its width.
pub proof fn lemma_eval_in_width(exprs: Seq<Expr>, nvars: Seq<u32>, i: int, m: Seq<u64>)
    requires
        arena_wf(exprs, nvars),
        model_valid(nvars, m),
        0 <= i < exprs.len(),
    ensures
        in_width(eval_at(exprs, i, m), exprs[i].width),
    decreases i,
{
    assert(node_wf(exprs, nvars, i));
    let e = exprs[i];
    match e.node {
        Node::Var(v) => {},
        Node::Cst(c) => {},
        Node::Bin(op, l, r) => {
            assert(node_wf(exprs, nvars, l as int));
            assert(node_wf(exprs, nvars, r as int));
            lemma_eval_in_width(exprs, nvars, l as int, m);
            lemma_eval_in_width(exprs, nvars, r as int, m);
            lemma_bv_bin_in_width(
                op,
                eval_at(exprs, l as int, m),
                eval_at(exprs, r as int, m),
                exprs[l as int].width,
            );
        },
        Node::Not(a) => {
            lemma_eval_in_width(exprs, nvars, a as int, m);
            lemma_bv_not_in_width(eval_at(exprs, a as int, m), e.width);
        },
        Node::Zext(a) => {
            lemma_eval_in_width(exprs, nvars, a as int, m);
            if exprs[a as int].width < e.width {
                vstd::arithmetic::power2::lemma_pow2_strictly_increases(
                    exprs[a as int].width as nat,
                    e.width as nat,
                );
            }
        },
        Node::Sext(a) => {
            assert(node_wf(exprs, nvars, a as int));
            lemma_eval_in_width(exprs, nvars, a as int, m);
            lemma_bv_sext_in_width(eval_at(exprs, a as int, m), exprs[a as int].width, e.width);
        },
        Node::Trunc(a) => {
            lemma_bv_trunc_in_width(eval_at(exprs, a as int, m), e.width);
        },
        Node::Concat(h, l) => {
            assert(node_wf(exprs, nvars, h as int));
            assert(node_wf(exprs, nvars, l as int));
            lemma_eval_in_width(exprs, nvars, h as int, m);
            lemma_eval_in_width(exprs, nvars, l as int, m);
            lemma_bv_concat_in_width(
                eval_at(exprs, h as int, m),
                eval_at(exprs, l as int, m),
                exprs[h as int].width,
                exprs[l as int].width,
            );
        },
        Node::Byte(a, bi) => {
            lemma_bv_byte_in_width(eval_at(exprs, a as int, m), bi);
        },
    }
}

/// Whether the arena entry `id` states that variable `v` equals literal `c`.
pub open spec fn var_eq_cst(exprs: Seq<Expr>, id: int, v: usize, c: u64) -> bool {
    0 <= id < exprs.len() && match exprs[id].node {
        Node::Bin(op, l, r) => op is Eq && l < id && r < id && (
        (exprs[l as int].node == Node::Var(v) && exprs[r as int].node == Node::Cst(c)) || (
        exprs[l as int].node == Node::Cst(c) && exprs[r as int].node == Node::Var(v))),
        _ => false,
    }
}

/// A constraint of the shape `v == c` forces `m[v] == c` in every
/// satisfying model.
pub proof fn lemma_forced(
    exprs: Seq<Expr>,
    nvars: Seq<u32>,
    cs: Seq<usize>,
    j: int,
    v: usize,
    c: u64,
    m: Seq<u64>,
)
    requires
        arena_wf(exprs, nvars),
        model_valid(nvars, m),
        0 <= j < cs.len(),
        var_eq_cst(exprs, cs[j] as int, v, c),
        holds_all(exprs, cs, m),
    ensures
        v < m.len(),
        m[v as int] == c,
{
    let id = cs[j] as int;
    assert(eval_at(exprs, id, m) == 1);
    assert(node_wf(exprs, nvars, id));
    if let Node::Bin(op, l, r) = exprs[id].node {
        assert(node_wf(exprs, nvars, l as int));
        assert(node_wf(exprs, nvars, r as int));
        assert(eval_at(exprs, id, m) == bv_bin(
            op,
            eval_at(exprs, l as int, m),
            eval_at(exprs, r as int, m),
            exprs[l as int].width,
        ));
        if exprs[l as int].node == Node::Var(v) {
            assert(eval_at(exprs, l as int, m) == m[v as int]);
            assert(eval_at(exprs, r as int, m) == c);
        } else {
            assert(exprs[l as int].node == Node::Cst(c));
            assert(eval_at(exprs, l as int, m) == c);
            assert(eval_at(exprs, r as int, m) == m[v as int]);
        }
    }
}

/// A constraint of the shape `v == c` only exists when `c` fits the
/// variable's width.
pub proof fn lemma_var_eq_cst_width(exprs: Seq<Expr>, nvars: Seq<u32>, id: int, v: usize, c: u64)
    requires
        arena_wf(exprs, nvars),
        var_eq_cst(exprs, id, v, c),
    ensures
        v < nvars.len(),
        in_width(c, nvars[v as int]),
{
    assert(node_wf(exprs, nvars, id));
    if let Node::Bin(op, l, r) = exprs[id].node {
        assert(node_wf(exprs, nvars, l as int));
        assert(node_wf(exprs, nvars, r as int));
        if exprs[l as int].node == Node::Var(v) {
            assert(exprs[l as int].width == nvars[v as int]);
            assert(in_width(c, exprs[r as int].width));
        } else {
            assert(exprs[r as int].width == nvars[v as int]);
            assert(in_width(c, exprs[l as int].width));
        }
    }
}

/// The arena entry at `id` is a variable-equals-literal constraint.
pub open spec fn eq_shaped(exprs: Seq<Expr>, id: int) -> bool {
    exists|v: usize, c: u64| var_eq_cst(exprs, id, v, c)
}

/// A variable-equals-literal constraint evaluates true under any model
/// that assigns the variable exactly the literal.
proof fn lemma_var_eq_cst_eval(
    exprs: Seq<Expr>,
    nvars: Seq<u32>,
    id: int,
    v: usize,
    c: u64,
    m: Seq<u64>,
)
    requires
        arena_wf(exprs, nvars),
        var_eq_cst(exprs, id, v, c),
        v < m.len(),
        m[v as int] == c,
    ensures
        eval_at(exprs, id, m) == 1,
{
    assert(node_wf(exprs, nvars, id));
    if let Node::Bin(op, l, r) = exprs[id].node {
        assert(node_wf(exprs, nvars, l as int));
        assert(node_wf(exprs, nvars, r as int));
        assert(eval_at(exprs, id, m) == bv_bin(
            op,
            eval_at(exprs, l as int, m),
            eval_at(exprs, r as int, m),
            exprs[l as int].width,
        ));
        if exprs[l as int].node == Node::Var(v) {
            assert(eval_at(exprs, l as int, m) == c);
            assert(eval_at(exprs, r as int, m) == c);
        } else {
            assert(eval_at(exprs, l as int, m) == c);
            assert(eval_at(exprs, r as int, m) == c);
        }
    }
}

/// Outcome of a satisfiability check: a checked model, a proof of
/// contradiction, or no answer.
pub enum SatResult {
    Sat(Vec<u64>),
    Unsat,
    Unknown,
}

/// Whether an operator divides, so that a concretely zero divisor is a
/// reportable arithmetic error.
pub open spec fn is_div_op(op: BinOp) -> bool {
    op is DivU || op is RemU || op is DivS || op is RemS
}

/// The incremental constraint store and expression arena one execution
/// path owns.
#[derive(Clone, Debug)]
pub struct Solver {
    pub exprs: Vec<Expr>,
    pub var_widths: Vec<u32>,
    pub var_names: Vec<String>,
    pub constraints: Vec<usize>,
}

impl Solver {
    /// Arena and constraint store are internally consistent.
    pub open spec fn wf(self) -> bool {
        &&& arena_wf(self.exprs@, self.var_widths@)
        &&& self.var_names@.len() == self.var_widths@.len()
        &&& forall|j: int|
            0 <= j < self.constraints@.len() ==> (#[trigger] self.constraints@[j] < self.exprs@.len()
                && self.exprs@[self.constraints@[j] as int].width == 1)
    }

    /// A value is meaningful relative to this solver: concrete inside its
    /// width, or a handle into the arena with the matching width.
    pub open spec fn value_wf(self, v: Value) -> bool {
        &&& v.wf_in(self.exprs@.len() as nat)
        &&& match v.kind {
            VKind::Symbolic(i) => self.exprs@[i as int].width == v.width,
            VKind::Concrete(_) => true,
        }
    }

    /// The value a `Value` takes under model `m`.
    pub open spec fn value_sem(self, v: Value, m: Seq<u64>) -> u64 {
        match v.kind {
            VKind::Concrete(c) => c,
            VKind::Symbolic(i) => eval_at(self.exprs@, i as int, m),
        }
    }

    /// `m` assigns every variable of this solver a value in its width.
    pub open spec fn model_ok(self, m: Seq<u64>) -> bool {
        model_valid(self.var_widths@, m)
    }

    /// The whole path condition is true under `m`.
    pub open spec fn holds(self, m: Seq<u64>) -> bool {
        holds_all(self.exprs@, self.constraints@, m)
    }

    /// Some valid model satisfies the path condition.
    pub open spec fn satisfiable(self) -> bool {
        exists|m: Seq<u64>| self.model_ok(m) && self.holds(m)
    }

    /// The new solver grew out of the old one without touching its
    /// variables or constraints: values and path condition keep their
    /// meaning.
    pub open spec fn extends(self, old: Solver) -> bool {
        &&& old.exprs@.is_prefix_of(self.exprs@)
        &&& self.var_widths@ == old.var_widths@
        &&& self.var_names@ == old.var_names@
        &&& self.constraints@ == old.constraints@
    }

    /// Like `extends`, but new variables and constraints may have been
    /// added at the end.
    pub open spec fn extends_loose(self, old: Solver) -> bool {
        &&& old.exprs@.is_prefix_of(self.exprs@)
        &&& old.var_widths@.is_prefix_of(self.var_widths@)
        &&& old.constraints@.is_prefix_of(self.constraints@)
    }

    /// An extension keeps every old value well formed.
    pub proof fn lemma_value_wf_extends(old: Solver, new: Solver, v: Value)
        requires
            old.exprs@.is_prefix_of(new.exprs@),
            old.value_wf(v),
        ensures
            new.value_wf(v),
    {
        if let VKind::Symbolic(i) = v.kind {
            assert(new.exprs@[i as int] == old.exprs@[i as int]);
        }
    }

    /// An extension preserves the meaning of every old value.
    pub proof fn lemma_extends_sem(old: Solver, new: Solver, v: Value, m: Seq<u64>)
        requires
            old.wf(),
            old.exprs@.is_prefix_of(new.exprs@),
            old.value_wf(v),
        ensures
            new.value_sem(v, m) == old.value_sem(v, m),
    {
        if let VKind::Symbolic(i) = v.kind {
            lemma_eval_prefix(old.exprs@, new.exprs@, old.var_widths@, i as int, m);
        }
    }

    /// An extension that keeps the constraint list keeps the whole path
    /// condition's meaning.
    pub proof fn lemma_holds_extends(old: Solver, new: Solver)
        requires
            old.wf(),
            old.exprs@.is_prefix_of(new.exprs@),
            new.constraints@ == old.constraints@,
        ensures
            forall|m: Seq<u64>| #[trigger] new.holds(m) == old.holds(m),
    {
        assert forall|m: Seq<u64>| #[trigger] new.holds(m) == old.holds(m) by {
            assert forall|j: int| 0 <= j < new.constraints@.len() implies eval_at(
                new.exprs@,
                #[trigger] new.constraints@[j] as int,
                m,
            ) == eval_at(old.exprs@, old.constraints@[j] as int, m) by {
                lemma_eval_prefix(
                    old.exprs@,
                    new.exprs@,
                    old.var_widths@,
                    old.constraints@[j] as int,
                    m,
                );
            }
        }
    }

    /// A fresh, empty solver context.
    pub fn new() -> (r: Solver)
        ensures
            r.wf(),
            r.exprs@.len() == 0,
            r.var_widths@.len() == 0,
            r.constraints@.len() == 0,
    {
        Solver { exprs: Vec::new(), var_widths: Vec::new(), var_names: Vec::new(), constraints: Vec::new() }
    }

    /// Allocate a fresh symbolic variable of the given width under the
    /// given name. Under any model, the returned value is exactly the
    /// model's entry for the new variable.
    pub fn new_var(&mut self, name: String, width: u32) -> (r: Value)
        requires
            old(self).wf(),
            wf_width(width),
        ensures
            final(self).wf(),
            final(self).extends_loose(*old(self)),
            final(self).constraints@ == old(self).constraints@,
            final(self).var_widths@ == old(self).var_widths@.push(width),
            final(self).value_wf(r),
            r.width == width,
            !r.is_concrete(),
            forall|m: Seq<u64>|
                old(self).var_widths@.len() < m.len() ==> final(self).value_sem(r, m) == m[old(
                    self,
                ).var_widths@.len() as int],
            forall|m: Seq<u64>| #[trigger]
                final(self).holds(m) == old(self).holds(m),
    {
        let ghost oldself = *self;
        let v = self.var_widths.len();
        self.var_widths.push(width);
        self.var_names.push(name);
        let id = self.exprs.len();
        self.exprs.push(Expr { width, node: Node::Var(v) });
        proof {
            // the new entry is a variable of the grown catalogue, so the
            // push lemma over the old catalogue does not apply here
            assert forall|i: int| 0 <= i < self.exprs@.len() implies node_wf(
                self.exprs@,
                self.var_widths@,
                i,
            ) by {
                if i < oldself.exprs@.len() {
                    assert(node_wf(oldself.exprs@, oldself.var_widths@, i));
                }
            }
            assert forall|m: Seq<u64>| #[trigger]
                self.holds(m) == oldself.holds(m) by {
                assert forall|j: int| 0 <= j < self.constraints@.len() implies eval_at(
                    self.exprs@,
                    #[trigger] self.constraints@[j] as int,
                    m,
                ) == eval_at(oldself.exprs@, oldself.constraints@[j] as int, m) by {
                    lemma_eval_prefix(
                        oldself.exprs@,
                        self.exprs@,
                        oldself.var_widths@,
                        oldself.constraints@[j] as int,
                        m,
                    );
                }
            }
        }
        Value { width, kind: VKind::Symbolic(id) }
    }

    /// Intern a value as an arena entry with the same meaning.
    fn intern(&mut self, v: &Value) -> (id: usize)
        requires
            old(self).wf(),
            old(self).value_wf(*v),
        ensures
            final(self).wf(),
            final(self).extends(*old(self)),
            id < final(self).exprs@.len(),
            final(self).exprs@[id as int].width == v.width,
            forall|m: Seq<u64>| eval_at(final(self).exprs@, id as int, m) == old(self).value_sem(
                *v,
                m,
            ),
    {
        let ghost oldself = *self;
        match v.kind {
            VKind::Symbolic(i) => i,
            VKind::Concrete(c) => {
                let id = self.exprs.len();
                self.exprs.push(Expr { width: v.width, node: Node::Cst(c) });
                proof {
                    assert forall|i: int| 0 <= i < self.exprs@.len() implies node_wf(
                        self.exprs@,
                        self.var_widths@,
                        i,
                    ) by {
                        if i < oldself.exprs@.len() {
                            assert(node_wf(oldself.exprs@, oldself.var_widths@, i));
                        }
                    }
                }
                id
            },
        }
    }

    /// Apply a binary operation, building a symbolic expression when
    /// either operand is symbolic. Mismatched widths are always the
    /// `WidthMismatch` error; a divide-style operation with a concretely
    /// zero divisor is `DivideByZeroForced`; everything else succeeds and
    /// the result means `bv_bin` of the operands under every model.
    pub fn apply_bin(&mut self, op: BinOp, a: &Value, b: &Value) -> (r: Result<Value, RadiusError>)
        requires
            old(self).wf(),
            old(self).value_wf(*a),
            old(self).value_wf(*b),
        ensures
            final(self).wf(),
            final(self).extends(*old(self)),
            r is Err <==> (a.width != b.width || (is_div_op(op) && b.kind == VKind::Concrete(0u64))),
            a.width != b.width ==> r == Err::<Value, RadiusError>(RadiusError::WidthMismatch),
            a.width == b.width && is_div_op(op) && b.kind == VKind::Concrete(0u64) ==> r == Err::<
                Value,
                RadiusError,
            >(RadiusError::DivideByZeroForced),
            forall|m: Seq<u64>| #[trigger] final(self).holds(m) == old(self).holds(m),
            r matches Ok(v) ==> {
                &&& final(self).value_wf(v)
                &&& v.width == bin_width(op, a.width)
                &&& (a.is_concrete() && b.is_concrete() ==> v.is_concrete())
                &&& (match (a.kind, b.kind) {
                    (VKind::Concrete(ca), VKind::Concrete(cb)) => v.kind == VKind::Concrete(
                        bv_bin(op, ca, cb, a.width),
                    ),
                    _ => true,
                })
                &&& forall|m: Seq<u64>| #[trigger] final(self).value_sem(v, m) == bv_bin(
                    op,
                    old(self).value_sem(*a, m),
                    old(self).value_sem(*b, m),
                    a.width,
                )
            },
    {
        let ghost oldself = *self;
        if a.width != b.width {
            return Err(RadiusError::WidthMismatch);
        }
        let divlike = match op {
            BinOp::DivU | BinOp::RemU | BinOp::DivS | BinOp::RemS => true,
            _ => false,
        };
        if divlike {
            if let VKind::Concrete(c) = b.kind {
                if c == 0 {
                    return Err(RadiusError::DivideByZeroForced);
                }
            }
        }
        if let (VKind::Concrete(ca), VKind::Concrete(cb)) = (a.kind, b.kind) {
            let x = exec_bv_bin(op, ca, cb, a.width);
            let w = match op {
                BinOp::Eq | BinOp::Ult | BinOp::Ule | BinOp::Slt | BinOp::Sle => 1,
                _ => a.width,
            };
            return Ok(Value { width: w, kind: VKind::Concrete(x) });
        }
        let la = self.intern(a);
        let ghost mid = *self;
        let lb = self.intern(b);
        let w = match op {
            BinOp::Eq | BinOp::Ult | BinOp::Ule | BinOp::Slt | BinOp::Sle => 1,
            _ => a.width,
        };
        let id = self.exprs.len();
        let ghost pre = *self;
        self.exprs.push(Expr { width: w, node: Node::Bin(op, la, lb) });
        proof {
            lemma_arena_wf_push(pre.exprs@, pre.var_widths@, self.exprs@.last());
            Solver::lemma_holds_extends(oldself, *self);
            assert forall|m: Seq<u64>| #[trigger] self.value_sem(
                Value { width: w, kind: VKind::Symbolic(id) },
                m,
            ) == bv_bin(op, oldself.value_sem(*a, m), oldself.value_sem(*b, m), a.width) by {
                assert(self.exprs@[id as int] == Expr { width: w, node: Node::Bin(op, la, lb) });
                assert(eval_at(self.exprs@, id as int, m) == bv_bin(
                    op,
                    eval_at(self.exprs@, la as int, m),
                    eval_at(self.exprs@, lb as int, m),
                    self.exprs@[la as int].width,
                ));
                lemma_eval_prefix(mid.exprs@, self.exprs@, mid.var_widths@, la as int, m);
                lemma_eval_prefix(pre.exprs@, self.exprs@, pre.var_widths@, lb as int, m);
                assert(eval_at(mid.exprs@, la as int, m) == oldself.value_sem(*a, m));
                assert(eval_at(pre.exprs@, lb as int, m) == mid.value_sem(*b, m));
                Solver::lemma_extends_sem(oldself, mid, *b, m);
                assert(self.exprs@[la as int] == mid.exprs@[la as int]);
            }
        }
        Ok(Value { width: w, kind: VKind::Symbolic(id) })
    }

    /// Bitwise complement of a value.
    pub fn apply_not(&mut self, a: &Value) -> (r: Value)
        requires
            old(self).wf(),
            old(self).value_wf(*a),
        ensures
            final(self).wf(),
            final(self).extends(*old(self)),
            forall|m: Seq<u64>| #[trigger] final(self).holds(m) == old(self).holds(m),
            final(self).value_wf(r),
            r.width == a.width,
            a.is_concrete() ==> r.is_concrete(),
            forall|m: Seq<u64>| #[trigger] final(self).value_sem(r, m) == bv_not(
                old(self).value_sem(*a, m),
                a.width,
            ),
    {
        let ghost oldself = *self;
        if let VKind::Concrete(c) = a.kind {
            let x = exec_bv_not(c, a.width);
            return Value { width: a.width, kind: VKind::Concrete(x) };
        }
        let la = self.intern(a);
        let id = self.exprs.len();
        let ghost pre = *self;
        self.exprs.push(Expr { width: a.width, node: Node::Not(la) });
        proof {
            lemma_arena_wf_push(pre.exprs@, pre.var_widths@, self.exprs@.last());
            Solver::lemma_holds_extends(oldself, *self);
            assert forall|m: Seq<u64>| #[trigger] self.value_sem(
                Value { width: a.width, kind: VKind::Symbolic(id) },
                m,
            ) == bv_not(oldself.value_sem(*a, m), a.width) by {
                assert(self.exprs@[id as int] == Expr { width: a.width, node: Node::Not(la) });
                assert(eval_at(self.exprs@, id as int, m) == bv_not(
                    eval_at(self.exprs@, la as int, m),
                    a.width,
                ));
                lemma_eval_prefix(pre.exprs@, self.exprs@, pre.var_widths@, la as int, m);
                assert(eval_at(pre.exprs@, la as int, m) == oldself.value_sem(*a, m));
            }
        }
        Value { width: a.width, kind: VKind::Symbolic(id) }
    }

    /// Zero-extend a value to a wider width: the value is unchanged.
    pub fn zext(&mut self, a: &Value, nw: u32) -> (r: Value)
        requires
            old(self).wf(),
            old(self).value_wf(*a),
            a.width <= nw <= 64,
        ensures
            final(self).wf(),
            final(self).extends(*old(self)),
            forall|m: Seq<u64>| #[trigger] final(self).holds(m) == old(self).holds(m),
            final(self).value_wf(r),
            r.width == nw,
            a.is_concrete() ==> r.is_concrete(),
            forall|m: Seq<u64>| #[trigger] final(self).value_sem(r, m) == old(self).value_sem(
                *a,
                m,
            ),
    {
        let ghost oldself = *self;
        if let VKind::Concrete(c) = a.kind {
            proof {
                if a.width < nw {
                    vstd::arithmetic::power2::lemma_pow2_strictly_increases(
                        a.width as nat,
                        nw as nat,
                    );
                }
            }
            return Value { width: nw, kind: VKind::Concrete(c) };
        }
        let la = self.intern(a);
        let id = self.exprs.len();
        let ghost pre = *self;
        self.exprs.push(Expr { width: nw, node: Node::Zext(la) });
        proof {
            lemma_arena_wf_push(pre.exprs@, pre.var_widths@, self.exprs@.last());
            Solver::lemma_holds_extends(oldself, *self);
            assert forall|m: Seq<u64>| #[trigger] self.value_sem(
                Value { width: nw, kind: VKind::Symbolic(id) },
                m,
            ) == oldself.value_sem(*a, m) by {
                assert(self.exprs@[id as int] == Expr { width: nw, node: Node::Zext(la) });
                assert(eval_at(self.exprs@, id as int, m) == eval_at(self.exprs@, la as int, m));
                lemma_eval_prefix(pre.exprs@, self.exprs@, pre.var_widths@, la as int, m);
                assert(eval_at(pre.exprs@, la as int, m) == oldself.value_sem(*a, m));
            }
        }
        Value { width: nw, kind: VKind::Symbolic(id) }
    }

    /// Sign-extend a value to a wider width.
    pub fn sext(&mut self, a: &Value, nw: u32) -> (r: Value)
        requires
            old(self).wf(),
            old(self).value_wf(*a),
            a.width <= nw <= 64,
        ensures
            final(self).wf(),
            final(self).extends(*old(self)),
            forall|m: Seq<u64>| #[trigger] final(self).holds(m) == old(self).holds(m),
            final(self).value_wf(r),
            r.width == nw,
            a.is_concrete() ==> r.is_concrete(),
            forall|m: Seq<u64>| #[trigger] final(self).value_sem(r, m) == bv_sext(
                old(self).value_sem(*a, m),
                a.width,
                nw,
            ),
    {
        let ghost oldself = *self;
        if let VKind::Concrete(c) = a.kind {
            let x = exec_bv_sext(c, a.width, nw);
            return Value { width: nw, kind: VKind::Concrete(x) };
        }
        let la = self.intern(a);
        let id = self.exprs.len();
        let ghost pre = *self;
        self.exprs.push(Expr { width: nw, node: Node::Sext(la) });
        proof {
            lemma_arena_wf_push(pre.exprs@, pre.var_widths@, self.exprs@.last());
            Solver::lemma_holds_extends(oldself, *self);
            assert forall|m: Seq<u64>| #[trigger] self.value_sem(
                Value { width: nw, kind: VKind::Symbolic(id) },
                m,
            ) == bv_sext(oldself.value_sem(*a, m), a.width, nw) by {
                assert(self.exprs@[id as int] == Expr { width: nw, node: Node::Sext(la) });
                assert(eval_at(self.exprs@, id as int, m) == bv_sext(
                    eval_at(self.exprs@, la as int, m),
                    self.exprs@[la as int].width,
                    nw,
                ));
                lemma_eval_prefix(pre.exprs@, self.exprs@, pre.var_widths@, la as int, m);
                assert(eval_at(pre.exprs@, la as int, m) == oldself.value_sem(*a, m));
                assert(self.exprs@[la as int] == pre.exprs@[la as int]);
            }
        }
        Value { width: nw, kind: VKind::Symbolic(id) }
    }

    /// Truncate a value to its low `nw` bits.
    pub fn trunc(&mut self, a: &Value, nw: u32) -> (r: Value)
        requires
            old(self).wf(),
            old(self).value_wf(*a),
            1 <= nw <= a.width,
        ensures
            final(self).wf(),
            final(self).extends(*old(self)),
            forall|m: Seq<u64>| #[trigger] final(self).holds(m) == old(self).holds(m),
            final(self).value_wf(r),
            r.width == nw,
            a.is_concrete() ==> r.is_concrete(),
            forall|m: Seq<u64>| #[trigger] final(self).value_sem(r, m) == bv_trunc(
                old(self).value_sem(*a, m),
                nw,
            ),
    {
        let ghost oldself = *self;
        if let VKind::Concrete(c) = a.kind {
            let x = exec_bv_trunc(c, nw);
            return Value { width: nw, kind: VKind::Concrete(x) };
        }
        let la = self.intern(a);
        let id = self.exprs.len();
        let ghost pre = *self;
        self.exprs.push(Expr { width: nw, node: Node::Trunc(la) });
        proof {
            lemma_arena_wf_push(pre.exprs@, pre.var_widths@, self.exprs@.last());
            Solver::lemma_holds_extends(oldself, *self);
            assert forall|m: Seq<u64>| #[trigger] self.value_sem(
                Value { width: nw, kind: VKind::Symbolic(id) },
                m,
            ) == bv_trunc(oldself.value_sem(*a, m), nw) by {
                assert(self.exprs@[id as int] == Expr { width: nw, node: Node::Trunc(la) });
                assert(eval_at(self.exprs@, id as int, m) == bv_trunc(
                    eval_at(self.exprs@, la as int, m),
                    nw,
                ));
                lemma_eval_prefix(pre.exprs@, self.exprs@, pre.var_widths@, la as int, m);
                assert(eval_at(pre.exprs@, la as int, m) == oldself.value_sem(*a, m));
            }
        }
        Value { width: nw, kind: VKind::Symbolic(id) }
    }

    /// Extract byte `i` (by significance) of a value as an eight-bit value.
    pub fn byte_of(&mut self, a: &Value, i: u32) -> (r: Value)
        requires
            old(self).wf(),
            old(self).value_wf(*a),
            8 * i + 8 <= a.width,
        ensures
            final(self).wf(),
            final(self).extends(*old(self)),
            forall|m: Seq<u64>| #[trigger] final(self).holds(m) == old(self).holds(m),
            final(self).value_wf(r),
            r.width == 8,
            a.is_concrete() ==> r.is_concrete(),
            forall|m: Seq<u64>| #[trigger] final(self).value_sem(r, m) == bv_byte(
                old(self).value_sem(*a, m),
                i,
            ),
    {
        let ghost oldself = *self;
        if let VKind::Concrete(c) = a.kind {
            let x = exec_bv_byte(c, i);
            return Value { width: 8, kind: VKind::Concrete(x) };
        }
        let la = self.intern(a);
        let id = self.exprs.len();
        let ghost pre = *self;
        self.exprs.push(Expr { width: 8, node: Node::Byte(la, i) });
        proof {
            lemma_arena_wf_push(pre.exprs@, pre.var_widths@, self.exprs@.last());
            Solver::lemma_holds_extends(oldself, *self);
            assert forall|m: Seq<u64>| #[trigger] self.value_sem(
                Value { width: 8, kind: VKind::Symbolic(id) },
                m,
            ) == bv_byte(oldself.value_sem(*a, m), i) by {
                assert(self.exprs@[id as int] == Expr { width: 8, node: Node::Byte(la, i) });
                assert(eval_at(self.exprs@, id as int, m) == bv_byte(
                    eval_at(self.exprs@, la as int, m),
                    i,
                ));
                lemma_eval_prefix(pre.exprs@, self.exprs@, pre.var_widths@, la as int, m);
                assert(eval_at(pre.exprs@, la as int, m) == oldself.value_sem(*a, m));
            }
        }
        Value { width: 8, kind: VKind::Symbolic(id) }
    }

    /// Concatenate `hi` above `lo` into one wider value.
    pub fn concat(&mut self, hi: &Value, lo: &Value) -> (r: Value)
        requires
            old(self).wf(),
            old(self).value_wf(*hi),
            old(self).value_wf(*lo),
            hi.width + lo.width <= 64,
        ensures
            final(self).wf(),
            final(self).extends(*old(self)),
            forall|m: Seq<u64>| #[trigger] final(self).holds(m) == old(self).holds(m),
            final(self).value_wf(r),
            r.width == hi.width + lo.width,
            hi.is_concrete() && lo.is_concrete() ==> r.is_concrete(),
            forall|m: Seq<u64>| #[trigger] final(self).value_sem(r, m) == bv_concat(
                old(self).value_sem(*hi, m),
                old(self).value_sem(*lo, m),
                lo.width,
            ),
    {
        let ghost oldself = *self;
        let w = hi.width + lo.width;
        if let (VKind::Concrete(ch), VKind::Concrete(cl)) = (hi.kind, lo.kind) {
            let x = exec_bv_concat(ch, cl, hi.width, lo.width);
            return Value { width: w, kind: VKind::Concrete(x) };
        }
        let lh = self.intern(hi);
        let ghost mid = *self;
        let ll = self.intern(lo);
        let id = self.exprs.len();
        let ghost pre = *self;
        self.exprs.push(Expr { width: w, node: Node::Concat(lh, ll) });
        proof {
            lemma_arena_wf_push(pre.exprs@, pre.var_widths@, self.exprs@.last());
            Solver::lemma_holds_extends(oldself, *self);
            assert forall|m: Seq<u64>| #[trigger] self.value_sem(
                Value { width: w, kind: VKind::Symbolic(id) },
                m,
            ) == bv_concat(oldself.value_sem(*hi, m), oldself.value_sem(*lo, m), lo.width) by {
                assert(self.exprs@[id as int] == Expr { width: w, node: Node::Concat(lh, ll) });
                assert(eval_at(self.exprs@, id as int, m) == bv_concat(
                    eval_at(self.exprs@, lh as int, m),
                    eval_at(self.exprs@, ll as int, m),
                    self.exprs@[ll as int].width,
                ));
                lemma_eval_prefix(mid.exprs@, self.exprs@, mid.var_widths@, lh as int, m);
                lemma_eval_prefix(pre.exprs@, self.exprs@, pre.var_widths@, ll as int, m);
                assert(eval_at(mid.exprs@, lh as int, m) == oldself.value_sem(*hi, m));
                assert(eval_at(pre.exprs@, ll as int, m) == mid.value_sem(*lo, m));
                Solver::lemma_extends_sem(oldself, mid, *lo, m);
                assert(self.exprs@[ll as int] == pre.exprs@[ll as int]);
            }
        }
        Value { width: w, kind: VKind::Symbolic(id) }
    }

    /// Record a one-bit value as a new path constraint. The new path
    /// condition is the old one conjoined with the value being one.
    pub fn add_constraint(&mut self, c: &Value)
        requires
            old(self).wf(),
            old(self).value_wf(*c),
            c.width == 1,
        ensures
            final(self).wf(),
            old(self).exprs@.is_prefix_of(final(self).exprs@),
            final(self).var_widths@ == old(self).var_widths@,
            final(self).var_names@ == old(self).var_names@,
            final(self).constraints@.len() == old(self).constraints@.len() + 1,
            old(self).constraints@.is_prefix_of(final(self).constraints@),
            forall|m: Seq<u64>| #[trigger] final(self).holds(m) <==> (old(self).holds(m) && old(
                self,
            ).value_sem(*c, m) == 1),
    {
        let ghost oldself = *self;
        let id = self.intern(c);
        let ghost pre = *self;
        self.constraints.push(id);
        proof {
            assert(oldself.constraints@.is_prefix_of(self.constraints@)) by {
                assert(oldself.constraints@ =~= self.constraints@.subrange(
                    0,
                    oldself.constraints@.len() as int,
                ));
            }
            assert forall|m: Seq<u64>| #[trigger] self.holds(m) <==> (oldself.holds(m)
                && oldself.value_sem(*c, m) == 1) by {
                assert forall|j: int| 0 <= j < oldself.constraints@.len() implies eval_at(
                    self.exprs@,
                    #[trigger] self.constraints@[j] as int,
                    m,
                ) == eval_at(oldself.exprs@, oldself.constraints@[j] as int, m) by {
                    assert(self.constraints@[j] == oldself.constraints@[j]);
                    lemma_eval_prefix(
                        oldself.exprs@,
                        self.exprs@,
                        oldself.var_widths@,
                        oldself.constraints@[j] as int,
                        m,
                    );
                }
                assert(self.constraints@[self.constraints@.len() - 1] == id);
                assert(self.exprs@ == pre.exprs@);
                assert(eval_at(pre.exprs@, id as int, m) == oldself.value_sem(*c, m));
                assert(eval_at(self.exprs@, id as int, m) == oldself.value_sem(*c, m));
                if self.holds(m) {
                    assert forall|j: int| 0 <= j < oldself.constraints@.len() implies eval_at(
                        oldself.exprs@,
                        #[trigger] oldself.constraints@[j] as int,
                        m,
                    ) == 1 by {
                        assert(eval_at(self.exprs@, self.constraints@[j] as int, m) == 1);
                    }
                    assert(eval_at(self.exprs@, self.constraints@[self.constraints@.len()
                        - 1] as int, m) == 1);
                }
                if oldself.holds(m) && oldself.value_sem(*c, m) == 1 {
                    assert forall|j: int| 0 <= j < self.constraints@.len() implies eval_at(
                        self.exprs@,
                        #[trigger] self.constraints@[j] as int,
                        m,
                    ) == 1 by {
                        if j < oldself.constraints@.len() {
                            assert(eval_at(oldself.exprs@, oldself.constraints@[j] as int, m)
                                == 1);
                        } else {
                            assert(self.constraints@[j] == id);
                        }
                    }
                }
            }
        }
    }

    /// Evaluate every arena entry under a model, in one bottom-up pass.
    fn eval_all(&self, m: &Vec<u64>) -> (vals: Vec<u64>)
        requires
            self.wf(),
            self.model_ok(m@),
        ensures
            vals@.len() == self.exprs@.len(),
            forall|i: int| 0 <= i < vals@.len() ==> #[trigger] vals@[i] == eval_at(
                self.exprs@,
                i,
                m@,
            ),
    {
        let mut vals: Vec<u64> = Vec::new();
        let n = self.exprs.len();
        let mut i: usize = 0;
        while i < n
            invariant
                self.wf(),
                self.model_ok(m@),
                n == self.exprs@.len(),
                0 <= i <= n,
                vals@.len() == i,
                forall|k: int| 0 <= k < i ==> #[trigger] vals@[k] == eval_at(self.exprs@, k, m@),
            decreases n - i,
        {
            let e = self.exprs[i];
            proof {
                assert(node_wf(self.exprs@, self.var_widths@, i as int));
            }
            let x: u64 = match e.node {
                Node::Var(v) => m[v],
                Node::Cst(c) => c,
                Node::Bin(op, l, r) => {
                    proof {
                        lemma_eval_in_width(self.exprs@, self.var_widths@, l as int, m@);
                        lemma_eval_in_width(self.exprs@, self.var_widths@, r as int, m@);
                        assert(node_wf(self.exprs@, self.var_widths@, l as int));
                    }
                    exec_bv_bin(op, vals[l], vals[r], self.exprs[l].width)
                },
                Node::Not(a) => {
                    proof {
                        lemma_eval_in_width(self.exprs@, self.var_widths@, a as int, m@);
                    }
                    exec_bv_not(vals[a], e.width)
                },
                Node::Zext(a) => vals[a],
                Node::Sext(a) => {
                    proof {
                        lemma_eval_in_width(self.exprs@, self.var_widths@, a as int, m@);
                        assert(node_wf(self.exprs@, self.var_widths@, a as int));
                    }
                    exec_bv_sext(vals[a], self.exprs[a].width, e.width)
                },
                Node::Trunc(a) => exec_bv_trunc(vals[a], e.width),
                Node::Concat(h, l) => {
                    proof {
                        lemma_eval_in_width(self.exprs@, self.var_widths@, h as int, m@);
                        lemma_eval_in_width(self.exprs@, self.var_widths@, l as int, m@);
                        assert(node_wf(self.exprs@, self.var_widths@, h as int));
                        assert(node_wf(self.exprs@, self.var_widths@, l as int));
                    }
                    exec_bv_concat(vals[h], vals[l], self.exprs[h].width, self.exprs[l].width)
                },
                Node::Byte(a, bi) => {
                    proof {
                        assert(node_wf(self.exprs@, self.var_widths@, a as int));
                    }
                    exec_bv_byte(vals[a], bi)
                },
            };
            vals.push(x);
            i = i + 1;
        }
        vals
    }

    /// Heuristically adjust a candidate model so that the arena entry at
    /// `id` might evaluate to `c`, driving the wanted value down through
    /// variables, concatenations, byte extractions, width changes and
    /// complements. This is best effort only: the caller always validates
    /// the finished candidate against every constraint before trusting it,
    /// so the only obligation here is that every variable stays inside
    /// its width.
    fn guess_into(&self, id: usize, c: u64, model: &mut Vec<u64>)
        requires
            self.wf(),
            id < self.exprs@.len(),
            old(model)@.len() == self.var_widths@.len(),
            forall|k: int| 0 <= k < old(model)@.len() ==> in_width(
                #[trigger] old(model)@[k],
                self.var_widths@[k],
            ),
        ensures
            final(model)@.len() == old(model)@.len(),
            forall|k: int| 0 <= k < final(model)@.len() ==> in_width(
                #[trigger] final(model)@[k],
                self.var_widths@[k],
            ),
        decreases id,
    {
        proof {
            assert(node_wf(self.exprs@, self.var_widths@, id as int));
        }
        let e = self.exprs[id];
        match e.node {
            Node::Var(v) => {
                let w = self.var_widths[v];
                let x = exec_bv_trunc(c, w);
                model.set(v, x);
            },
            Node::Concat(h, l) => {
                proof {
                    assert(node_wf(self.exprs@, self.var_widths@, l as int));
                    crate::value::lemma_u128_one_shl(self.exprs@[l as int].width as u128);
                    crate::value::lemma_pow2_le_64(self.exprs@[l as int].width);
                }
                let wl = self.exprs[l].width;
                let pl: u128 = 1u128 << (wl as u128);
                let hi = ((c as u128) / pl) as u64;
                let lo = ((c as u128) % pl) as u64;
                self.guess_into(h, hi, model);
                self.guess_into(l, lo, model);
            },
            Node::Byte(a, i) => {
                if let Node::Var(v) = self.exprs[a].node {
                    proof {
                        assert(node_wf(self.exprs@, self.var_widths@, a as int));
                        crate::value::lemma_u128_one_shl((8 * i) as u128);
                        crate::value::lemma_u128_one_shl((8 * i + 8) as u128);
                        crate::value::lemma_pow2_le_64((8 * i) as u32);
                        crate::value::lemma_pow2_le_64((8 * i + 8) as u32);
                        crate::value::lemma_u128_one_shl(self.var_widths@[v as int] as u128);
                        crate::value::lemma_pow2_le_64(self.var_widths@[v as int]);
                    }
                    let w = self.var_widths[v];
                    let oldv = model[v];
                    let pi: u128 = 1u128 << ((8 * i) as u128);
                    let p256: u128 = 1u128 << ((8 * i + 8) as u128);
                    let low: u128 = (oldv as u128) % pi;
                    let high: u128 = (oldv as u128) / p256;
                    proof {
                        vstd::arithmetic::div_mod::lemma_fundamental_div_mod(
                            oldv as int,
                            p256 as int,
                        );
                        vstd::arithmetic::power2::lemma_pow2_adds((8 * i) as nat, 8);
                        vstd::arithmetic::power2::lemma2_to64();
                        assert(pi * 256 == p256);
                        vstd::arithmetic::mul::lemma_mul_upper_bound(
                            (c % 256) as int,
                            255,
                            pi as int,
                            pi as int,
                        );
                        vstd::arithmetic::div_mod::lemma_mod_bound(oldv as int, p256 as int);
                        assert(high == (oldv as int) / (p256 as int));
                        assert((p256 as int) * ((oldv as int) / (p256 as int)) + (oldv as int) % (
                        p256 as int) == oldv as int);
                        assert((high as int) * (p256 as int) <= oldv as int) by (nonlinear_arith)
                            requires
                                high == (oldv as int) / (p256 as int),
                                p256 >= 1,
                                oldv >= 0,
                        ;
                    }
                    let nv: u128 = high * p256 + ((c % 256) as u128) * pi + low;
                    let pw: u128 = 1u128 << (w as u128);
                    proof {
                        vstd::arithmetic::div_mod::lemma_mod_bound(nv as int, pw as int);
                    }
                    let x = (nv % pw) as u64;
                    model.set(v, x);
                }
            },
            Node::Zext(a) | Node::Trunc(a) => {
                self.guess_into(a, c, model);
            },
            Node::Not(a) => {
                let w = e.width;
                let t = exec_bv_trunc(c, w);
                let n = exec_bv_not(t, w);
                self.guess_into(a, n, model);
            },
            _ => {},
        }
    }

    /// Try to decide the path condition. `Sat` carries a model that was
    /// checked against every constraint; `Unsat` is returned only when
    /// two constraints pin one variable to two different literals, which
    /// no model can satisfy; otherwise `Unknown`. An answer is owed on
    /// the procedure's completeness domain: an empty store is `Sat`, and
    /// a store made only of variable-equals-literal constraints is always
    /// decided, never `Unknown`.
    pub fn check_sat(&self) -> (r: SatResult)
        requires
            self.wf(),
        ensures
            r matches SatResult::Sat(m) ==> self.model_ok(m@) && self.holds(m@),
            r is Unsat ==> !self.satisfiable(),
            self.constraints@.len() == 0 ==> r is Sat,
            (forall|j: int|
                0 <= j < self.constraints@.len() ==> eq_shaped(
                    self.exprs@,
                    #[trigger] self.constraints@[j] as int,
                )) ==> !(r is Unknown),
    {
        let nv = self.var_widths.len();
        let ncs = self.constraints.len();
        let mut forced: Vec<Option<(u64, usize)>> = Vec::new();
        let mut v0: usize = 0;
        while v0 < nv
            invariant
                0 <= v0 <= nv,
                forced@.len() == v0,
                forall|k: int| 0 <= k < v0 ==> forced@[k] is None,
            decreases nv - v0,
        {
            forced.push(None);
            v0 = v0 + 1;
        }
        let mut j: usize = 0;
        while j < ncs
            invariant
                self.wf(),
                nv == self.var_widths@.len(),
                ncs == self.constraints@.len(),
                0 <= j <= ncs,
                forced@.len() == nv,
                forall|k: int|
                    0 <= k < nv ==> (#[trigger] forced@[k] matches Some(p) ==> p.1 < ncs
                        && var_eq_cst(self.exprs@, self.constraints@[p.1 as int] as int, k as usize, p.0)),
                forall|jj: int, v2: usize, c2: u64|
                    0 <= jj < j && #[trigger] var_eq_cst(
                        self.exprs@,
                        self.constraints@[jj] as int,
                        v2,
                        c2,
                    ) ==> (forced@[v2 as int] matches Some(p) && p.0 == c2),
            decreases ncs - j,
        {
            let ghost forced_in = forced@;
            let id = self.constraints[j];
            let e = self.exprs[id];
            let mut vc: Option<(usize, u64)> = None;
            if let Node::Bin(op, l, r) = e.node {
                if matches!(op, BinOp::Eq) {
                    proof {
                        assert(node_wf(self.exprs@, self.var_widths@, id as int));
                    }
                    let ln = self.exprs[l].node;
                    let rn = self.exprs[r].node;
                    vc = match (ln, rn) {
                        (Node::Var(v), Node::Cst(c)) => Some((v, c)),
                        (Node::Cst(c), Node::Var(v)) => Some((v, c)),
                        _ => None,
                    };
                    proof {
                        if let Some((v, c)) = vc {
                            assert(node_wf(self.exprs@, self.var_widths@, l as int));
                            assert(node_wf(self.exprs@, self.var_widths@, r as int));
                            assert(var_eq_cst(self.exprs@, id as int, v, c));
                            assert forall|v2: usize, c2: u64|
                                var_eq_cst(self.exprs@, id as int, v2, c2) implies v2 == v && c2
                                == c by {}
                        } else {
                            assert forall|v2: usize, c2: u64|
                                !var_eq_cst(self.exprs@, id as int, v2, c2) by {}
                        }
                    }
                } else {
                    proof {
                        assert forall|v2: usize, c2: u64|
                            !var_eq_cst(self.exprs@, id as int, v2, c2) by {}
                    }
                }
            } else {
                proof {
                    assert forall|v2: usize, c2: u64|
                        !var_eq_cst(self.exprs@, id as int, v2, c2) by {}
                }
            }
            {
                    if let Some((v, c)) = vc {
                        proof {
                            lemma_var_eq_cst_width(self.exprs@, self.var_widths@, id as int, v, c);
                        }
                        if let Some(p) = forced[v] {
                            if p.0 != c {
                                proof {
                                    let j0 = p.1 as int;
                                    let c0 = p.0;
                                    assert forall|m: Seq<u64>| !(self.model_ok(m) && self.holds(m)) by {
                                        if self.model_ok(m) && self.holds(m) {
                                            lemma_forced(
                                                self.exprs@,
                                                self.var_widths@,
                                                self.constraints@,
                                                j0,
                                                v,
                                                c0,
                                                m,
                                            );
                                            lemma_forced(
                                                self.exprs@,
                                                self.var_widths@,
                                                self.constraints@,
                                                j as int,
                                                v,
                                                c,
                                                m,
                                            );
                                        }
                                    }
                                }
                                return SatResult::Unsat;
                            }
                        } else {
                            forced.set(v, Some((c, j)));
                        }
                    }
            }
            proof {
                assert forall|jj: int, v2: usize, c2: u64|
                    0 <= jj < j + 1 && var_eq_cst(
                        self.exprs@,
                        self.constraints@[jj] as int,
                        v2,
                        c2,
                    ) implies (forced@[v2 as int] matches Some(p) && p.0 == c2) by {
                    lemma_var_eq_cst_width(
                        self.exprs@,
                        self.var_widths@,
                        self.constraints@[jj] as int,
                        v2,
                        c2,
                    );
                    if jj < j {
                        assert(forced_in[v2 as int] matches Some(p) && p.0 == c2);
                        if let Some(pr) = vc {
                            if forced_in[pr.0 as int] is None {
                                assert(v2 != pr.0);
                                assert(forced@[v2 as int] == forced_in[v2 as int]);
                            } else {
                                assert(forced@ == forced_in);
                            }
                        } else {
                            assert(forced@ == forced_in);
                        }
                    }
                }
            }
            j = j + 1;
        }
        let mut model: Vec<u64> = Vec::new();
        let mut v: usize = 0;
        while v < nv
            invariant
                self.wf(),
                nv == self.var_widths@.len(),
                0 <= v <= nv,
                model@.len() == v,
                forall|k: int| 0 <= k < v ==> in_width(#[trigger] model@[k], self.var_widths@[k]),
            decreases nv - v,
        {
            proof {
                vstd::arithmetic::power2::lemma_pow2_pos(self.var_widths@[v as int] as nat);
            }
            model.push(0);
            v = v + 1;
        }
        // best-effort propagation of wanted values through the structure
        let mut g: usize = 0;
        while g < ncs
            invariant
                self.wf(),
                nv == self.var_widths@.len(),
                ncs == self.constraints@.len(),
                0 <= g <= ncs,
                model@.len() == nv,
                forall|k: int| 0 <= k < nv ==> in_width(#[trigger] model@[k], self.var_widths@[k]),
            decreases ncs - g,
        {
            let id = self.constraints[g];
            let e = self.exprs[id];
            if let Node::Bin(op, l, r) = e.node {
                if matches!(op, BinOp::Eq) {
                    proof {
                        assert(node_wf(self.exprs@, self.var_widths@, id as int));
                    }
                    if let Node::Cst(c) = self.exprs[r].node {
                        self.guess_into(l, c, &mut model);
                    } else {
                        if let Node::Cst(c) = self.exprs[l].node {
                            self.guess_into(r, c, &mut model);
                        }
                    }
                }
            }
            g = g + 1;
        }
        // sound forced assignments override the guesses
        let mut v2: usize = 0;
        while v2 < nv
            invariant
                self.wf(),
                nv == self.var_widths@.len(),
                ncs == self.constraints@.len(),
                forced@.len() == nv,
                forall|k: int|
                    0 <= k < nv ==> (#[trigger] forced@[k] matches Some(p) ==> p.1 < ncs
                        && var_eq_cst(self.exprs@, self.constraints@[p.1 as int] as int, k as usize, p.0)),
                forall|jj: int, w2: usize, c2: u64|
                    0 <= jj < ncs && #[trigger] var_eq_cst(
                        self.exprs@,
                        self.constraints@[jj] as int,
                        w2,
                        c2,
                    ) ==> (forced@[w2 as int] matches Some(p) && p.0 == c2),
                0 <= v2 <= nv,
                model@.len() == nv,
                forall|k: int| 0 <= k < nv ==> in_width(#[trigger] model@[k], self.var_widths@[k]),
                forall|k: int|
                    0 <= k < v2 ==> (#[trigger] forced@[k] matches Some(p) ==> model@[k] == p.0),
            decreases nv - v2,
        {
            if let Some(p) = forced[v2] {
                proof {
                    lemma_var_eq_cst_width(
                        self.exprs@,
                        self.var_widths@,
                        self.constraints@[p.1 as int] as int,
                        v2,
                        p.0,
                    );
                }
                model.set(v2, p.0);
            }
            v2 = v2 + 1;
        }
        let vals = self.eval_all(&model);
        let mut k: usize = 0;
        while k < ncs
            invariant
                self.wf(),
                nv == self.var_widths@.len(),
                ncs == self.constraints@.len(),
                forced@.len() == nv,
                model@.len() == self.var_widths@.len(),
                self.model_ok(model@),
                vals@.len() == self.exprs@.len(),
                forall|i: int| 0 <= i < vals@.len() ==> #[trigger] vals@[i] == eval_at(
                    self.exprs@,
                    i,
                    model@,
                ),
                forall|jj: int, w2: usize, c2: u64|
                    0 <= jj < ncs && #[trigger] var_eq_cst(
                        self.exprs@,
                        self.constraints@[jj] as int,
                        w2,
                        c2,
                    ) ==> (forced@[w2 as int] matches Some(p) && p.0 == c2),
                forall|k2: int|
                    0 <= k2 < nv ==> (#[trigger] forced@[k2] matches Some(p) ==> model@[k2]
                        == p.0),
                0 <= k <= ncs,
                forall|jj: int|
                    0 <= jj < k ==> eval_at(
                        self.exprs@,
                        #[trigger] self.constraints@[jj] as int,
                        model@,
                    ) == 1,
            decreases ncs - k,
        {
            let id = self.constraints[k];
            if vals[id] != 1 {
                proof {
                    // a store made only of variable-equals-literal
                    // constraints never reaches this point: the forced
                    // pass pinned every such variable into the model
                    if forall|jj: int|
                        0 <= jj < self.constraints@.len() ==> eq_shaped(
                            self.exprs@,
                            #[trigger] self.constraints@[jj] as int,
                        ) {
                        assert(eq_shaped(self.exprs@, self.constraints@[k as int] as int));
                        let (w2, c2) = choose|w2: usize, c2: u64|
                            var_eq_cst(self.exprs@, id as int, w2, c2);
                        lemma_var_eq_cst_width(self.exprs@, self.var_widths@, id as int, w2, c2);
                        assert(forced@[w2 as int] matches Some(p) && p.0 == c2);
                        assert(model@[w2 as int] == c2);
                        lemma_var_eq_cst_eval(
                            self.exprs@,
                            self.var_widths@,
                            id as int,
                            w2,
                            c2,
                            model@,
                        );
                        assert(false);
                    }
                }
                return SatResult::Unknown;
            }
            k = k + 1;
        }
        SatResult::Sat(model)
    }

    /// Concretize a value: find some model of the path condition and
    /// report the value's assignment under it. `None` means the built-in
    /// procedure found no witness, not that none exists; on the
    /// procedure's completeness domain a witness is owed: always under an
    /// empty path condition, and under a satisfiable store made only of
    /// variable-equals-literal constraints. A concrete value can only
    /// ever be reported as itself.
    pub fn eval_to_u64(&self, v: &Value) -> (r: Option<u64>)
        requires
            self.wf(),
            self.value_wf(*v),
        ensures
            r matches Some(x) ==> exists|m: Seq<u64>|
                self.model_ok(m) && self.holds(m) && x == self.value_sem(*v, m),
            self.constraints@.len() == 0 ==> r is Some,
            (forall|j: int|
                0 <= j < self.constraints@.len() ==> eq_shaped(
                    self.exprs@,
                    #[trigger] self.constraints@[j] as int,
                )) && self.satisfiable() ==> r is Some,
            v.kind matches VKind::Concrete(c) ==> (r is Some ==> r == Some(c)),
    {
        match self.check_sat() {
            SatResult::Sat(model) => {
                let x: u64 = match v.kind {
                    VKind::Concrete(c) => c,
                    VKind::Symbolic(i) => {
                        let vals = self.eval_all(&model);
                        vals[i]
                    },
                };
                proof {
                    assert(self.model_ok(model@) && self.holds(model@) && x == self.value_sem(
                        *v,
                        model@,
                    ));
                }
                Some(x)
            },
            _ => None,
        }
    }
}

/// Copy a vector of plain values element by element.
pub fn copy_vec<T: Copy>(v: &Vec<T>) -> (r: Vec<T>)
    ensures
        r@ == v@,
{
    let mut r: Vec<T> = Vec::new();
    let n = v.len();
    let mut i: usize = 0;
    while i < n
        invariant
            n == v@.len(),
            0 <= i <= n,
            r@ == v@.subrange(0, i as int),
        decreases n - i,
    {
        r.push(v[i]);
        proof {
            assert(r@ =~= v@.subrange(0, i + 1));
        }
        i = i + 1;
    }
    proof {
        assert(r@ =~= v@);
    }
    r
}

impl Solver {
    /// An independent copy of this constraint store: the fork seed. The
    /// copy has the same expressions, variables and constraints, so every
    /// value keeps its meaning, and later changes to either copy never
    /// affect the other.
    pub fn duplicate(&self) -> (r: Solver)
        ensures
            r.exprs@ == self.exprs@,
            r.var_widths@ == self.var_widths@,
            r.var_names@.len() == self.var_names@.len(),
            r.constraints@ == self.constraints@,
            self.wf() ==> r.wf(),
            forall|m: Seq<u64>| #[trigger] r.holds(m) == self.holds(m),
            forall|v: Value, m: Seq<u64>| #[trigger] r.value_sem(v, m) == self.value_sem(v, m),
            forall|v: Value| #[trigger] r.value_wf(v) == self.value_wf(v),
            forall|m: Seq<u64>| #[trigger] r.model_ok(m) == self.model_ok(m),
    {
        let exprs = copy_vec(&self.exprs);
        let var_widths = copy_vec(&self.var_widths);
        let constraints = copy_vec(&self.constraints);
        let mut var_names: Vec<String> = Vec::new();
        let n = self.var_names.len();
        let mut i: usize = 0;
        while i < n
            invariant
                n == self.var_names@.len(),
                0 <= i <= n,
                var_names@.len() == i,
            decreases n - i,
        {
            var_names.push(self.var_names[i].clone());
            i = i + 1;
        }
        Solver { exprs, var_widths, var_names, constraints }
    }
}

/// Solving soundness: when some path constraint states that `v` equals
/// the literal `c`, every valid model of the path condition gives `v`
/// exactly the value `c` — so every witness concretization can return
/// for `v` is `c`.
pub proof fn lemma_solving_soundness(s: Solver, v: Value, c: u64, j: int, m: Seq<u64>)
    requires
        s.wf(),
        0 <= j < s.constraints@.len(),
        forall|m2: Seq<u64>|
            s.model_ok(m2) ==> eval_at(s.exprs@, s.constraints@[j] as int, m2) == bool_bit(
                s.value_sem(v, m2) == c,
            ),
        s.model_ok(m),
        s.holds(m),
    ensures
        s.value_sem(v, m) == c,
{
    assert(eval_at(s.exprs@, s.constraints@[j] as int, m) == 1);
}

} // verus!
