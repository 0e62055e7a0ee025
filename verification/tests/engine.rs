use radius::processor::{fork_on, CallConv, InstrSem, StepResult, Token};
use radius::r2_api::Endian;
use radius::radius::{Radius, RunResult};
use radius::sims::FreshInputSim;
use radius::solver::{SatResult, Solver};
use radius::state::Status;
use radius::value::{BinOp, VKind, Value};
use radius::RadiusError;

fn conc(val: u64, width: u32) -> Value {
    Value { width, kind: VKind::Concrete(val) }
}

fn apply(op: BinOp, x: u64, y: u64, w: u32) -> u64 {
    let mut s = Solver::new();
    match s.apply_bin(op, &conc(x, w), &conc(y, w)).unwrap().kind {
        VKind::Concrete(c) => c,
        VKind::Symbolic(_) => panic!("concrete operands gave a symbolic result"),
    }
}

fn make_radius() -> Radius<FreshInputSim> {
    Radius::new(
        vec!["r0".to_string(), "r1".to_string(), "r2".to_string()],
        vec![64, 64, 64],
        Endian::Little,
        CallConv { args: vec![1, 2], ret: 0 },
    )
}

#[test]
fn arithmetic_fidelity_wraparound() {
    assert_eq!(apply(BinOp::Add, 250, 10, 8), 4);
    assert_eq!(apply(BinOp::Add, u64::MAX, 1, 64), 0);
    assert_eq!(apply(BinOp::Sub, 5, 10, 8), 251);
    assert_eq!(apply(BinOp::Mul, 20, 13, 8), 4);
    assert_eq!(apply(BinOp::DivU, 7, 2, 8), 3);
    assert_eq!(apply(BinOp::RemU, 7, 2, 8), 1);
    assert_eq!(apply(BinOp::And, 0xf0, 0x3c, 8), 0x30);
    assert_eq!(apply(BinOp::Or, 0xf0, 0x3c, 8), 0xfc);
    assert_eq!(apply(BinOp::Xor, 0xf0, 0x3c, 8), 0xcc);
    assert_eq!(apply(BinOp::Shl, 0x81, 1, 8), 0x02);
    assert_eq!(apply(BinOp::Shr, 0x81, 1, 8), 0x40);
    // shift amounts are taken modulo the width
    assert_eq!(apply(BinOp::Shl, 0x5a, 8, 8), 0x5a);
}

#[test]
fn signed_arithmetic_two_complement() {
    // -6 / 2 == -3 at eight bits
    assert_eq!(apply(BinOp::DivS, 0xfa, 2, 8), 0xfd);
    // -7 rem 2 == -1: the remainder takes the dividend's sign
    assert_eq!(apply(BinOp::RemS, 0xf9, 2, 8), 0xff);
    // -1 < 1 signed, but not unsigned
    assert_eq!(apply(BinOp::Slt, 0xff, 0x01, 8), 1);
    assert_eq!(apply(BinOp::Ult, 0xff, 0x01, 8), 0);
    assert_eq!(apply(BinOp::Sle, 0x7f, 0x80, 8), 0);
}

#[test]
fn width_mismatch_always_reported() {
    let mut s = Solver::new();
    let a = conc(1, 8);
    let b = conc(1, 16);
    assert_eq!(s.apply_bin(BinOp::Add, &a, &b), Err(RadiusError::WidthMismatch));
    assert_eq!(s.apply_bin(BinOp::Eq, &a, &b), Err(RadiusError::WidthMismatch));
    let x = s.new_var("x".to_string(), 8);
    assert_eq!(s.apply_bin(BinOp::Mul, &x, &b), Err(RadiusError::WidthMismatch));
}

#[test]
fn division_by_concrete_zero_reported() {
    let mut s = Solver::new();
    let a = conc(9, 8);
    let z = conc(0, 8);
    assert_eq!(s.apply_bin(BinOp::DivU, &a, &z), Err(RadiusError::DivideByZeroForced));
    assert_eq!(s.apply_bin(BinOp::RemS, &a, &z), Err(RadiusError::DivideByZeroForced));
}

#[test]
fn solving_soundness_constrained_value() {
    let mut s = Solver::new();
    let x = s.new_var("x".to_string(), 32);
    let eq = s.apply_bin(BinOp::Eq, &x, &conc(42, 32)).unwrap();
    s.add_constraint(&eq);
    assert_eq!(s.eval_to_u64(&x), Some(42));
}

#[test]
fn contradictory_constraints_unsat() {
    let mut s = Solver::new();
    let x = s.new_var("x".to_string(), 32);
    let eq1 = s.apply_bin(BinOp::Eq, &x, &conc(42, 32)).unwrap();
    s.add_constraint(&eq1);
    let eq2 = s.apply_bin(BinOp::Eq, &x, &conc(43, 32)).unwrap();
    s.add_constraint(&eq2);
    assert!(matches!(s.check_sat(), SatResult::Unsat));
    assert_eq!(s.eval_to_u64(&x), None);
}

#[test]
fn memory_round_trip_concrete_little() {
    let radius = make_radius();
    let mut st = radius.call_state(0x100, &vec![]);
    let v = st.concrete_value(0xdeadbeef, 32);
    st.memory_write(0x1000, &v, 4);
    let r = st.memory_read(0x1000, 4);
    assert_eq!(r.kind, VKind::Concrete(0xdeadbeef));
    assert_eq!(r.width, 32);
    // least significant byte first in little-endian order
    assert_eq!(st.memory.read_byte(0x1000).kind, VKind::Concrete(0xef));
    assert_eq!(st.memory.read_byte(0x1003).kind, VKind::Concrete(0xde));
}

#[test]
fn memory_round_trip_concrete_big() {
    let radius: Radius<FreshInputSim> = Radius::new(
        vec!["r0".to_string()],
        vec![64],
        Endian::Big,
        CallConv { args: vec![], ret: 0 },
    );
    let mut st = radius.call_state(0x100, &vec![]);
    let v = st.concrete_value(0xdeadbeef, 32);
    st.memory_write(0x1000, &v, 4);
    let r = st.memory_read(0x1000, 4);
    assert_eq!(r.kind, VKind::Concrete(0xdeadbeef));
    // most significant byte first in big-endian order
    assert_eq!(st.memory.read_byte(0x1000).kind, VKind::Concrete(0xde));
    assert_eq!(st.memory.read_byte(0x1003).kind, VKind::Concrete(0xef));
}

#[test]
fn memory_round_trip_symbolic() {
    let radius = make_radius();
    let mut st = radius.call_state(0x100, &vec![]);
    let x = st.symbolic_value("x", 32);
    let addr = st.concrete_value(0x2000, 64);
    st.memory_write_value(&addr, &x, 4).unwrap();
    let r = st.memory_read_value(&addr, 4).unwrap();
    assert_eq!(r.width, 32);
    // pin the symbol and check the read-back value means the same thing
    let eq = st.solver.apply_bin(BinOp::Eq, &x, &conc(77, 32)).unwrap();
    st.solver.add_constraint(&eq);
    assert_eq!(st.solver.eval_to_u64(&r), Some(77));
    assert_eq!(st.solver.eval_to_u64(&x), Some(77));
}

#[test]
fn unmapped_memory_reads_zero() {
    let radius = make_radius();
    let mut st = radius.call_state(0x100, &vec![]);
    let r = st.memory_read(0x9999, 4);
    assert_eq!(r.kind, VKind::Concrete(0));
}

#[test]
fn fork_symbolic_both_sides_kept() {
    let radius = make_radius();
    let mut st = radius.call_state(0x100, &vec![]);
    let b = st.symbolic_value("b", 1);
    let succs = fork_on(st, b, 0x200, 0x300);
    assert_eq!(succs.len(), 2);
    assert_eq!(succs[0].pc, 0x200);
    assert!(matches!(succs[0].status, Status::Active));
    assert_eq!(succs[1].pc, 0x300);
    assert!(matches!(succs[1].status, Status::Active));
}

#[test]
fn fork_forced_condition_single_active_successor() {
    let radius = make_radius();
    let mut st = radius.call_state(0x100, &vec![]);
    let x = st.symbolic_value("x", 8);
    let pin = st.solver.apply_bin(BinOp::Eq, &x, &conc(5, 8)).unwrap();
    st.solver.add_constraint(&pin);
    let cond = st.solver.apply_bin(BinOp::Eq, &x, &conc(7, 8)).unwrap();
    // x is already pinned to five, so the taken side is unsatisfiable:
    // it comes back marked with the reason it leaves exploration
    let succs = fork_on(st, cond, 0x200, 0x300);
    assert_eq!(succs.len(), 2);
    assert_eq!(succs[0].pc, 0x200);
    assert!(matches!(succs[0].status, Status::Unsat));
    assert_eq!(succs[1].pc, 0x300);
    assert!(matches!(succs[1].status, Status::Active));
}

#[test]
fn fork_concrete_condition_never_forks() {
    let radius = make_radius();
    let st = radius.call_state(0x100, &vec![]);
    let t = st.concrete_value(1, 1);
    let succs = fork_on(st, t, 0x200, 0x300);
    assert_eq!(succs.len(), 1);
    assert_eq!(succs[0].pc, 0x200);
    let radius2 = make_radius();
    let st2 = radius2.call_state(0x100, &vec![]);
    let f = st2.concrete_value(0, 1);
    let succs2 = fork_on(st2, f, 0x200, 0x300);
    assert_eq!(succs2.len(), 1);
    assert_eq!(succs2[0].pc, 0x300);
}

#[test]
fn hook_precedence_over_native_semantics() {
    let mut radius = make_radius();
    radius.processor.register_hook(
        0x100,
        FreshInputSim { key: "ints".to_string(), arg_index: 0 },
    );
    // the native semantics would write 99 into the return register
    radius.processor.add_instruction(
        0x100,
        InstrSem { size: 4, tokens: vec![Token::PushImm(99, 64), Token::PopReg(0)] },
    );
    let st = radius.call_state(0x100, &vec![Some(0x2000)]);
    match radius.processor.step(st) {
        StepResult::Next(mut ss) => {
            assert_eq!(ss.len(), 1);
            let s = ss.pop().unwrap();
            // the hook's return value, not the native program's effect
            assert_eq!(s.regs[0].kind, VKind::Concrete(1));
            assert_eq!(s.pc, 0x104);
            assert!(matches!(s.status, Status::Active));
            assert_eq!(s.context_get("ints").unwrap().len(), 1);
        },
        StepResult::NeedFetch(_) => panic!("instruction was cached"),
    }
}

#[test]
fn step_asks_for_missing_decode() {
    let radius = make_radius();
    let st = radius.call_state(0x400, &vec![]);
    match radius.processor.step(st) {
        StepResult::NeedFetch(a) => assert_eq!(a, 0x400),
        StepResult::Next(_) => panic!("nothing cached at this address"),
    }
}

#[test]
fn run_until_finds_input_avoiding_failure() {
    // entry: a hooked "read formatted input" call symbolizes one 32-bit
    // value at the buffer; next instruction compares it to 42 and jumps
    // to the success address, else falls through to the failure address.
    let mut radius = make_radius();
    radius.processor.register_hook(
        0x100,
        FreshInputSim { key: "ints".to_string(), arg_index: 0 },
    );
    radius.processor.add_instruction(0x100, InstrSem { size: 4, tokens: vec![] });
    radius.processor.add_instruction(
        0x104,
        InstrSem {
            size: 4,
            tokens: vec![
                Token::PushImm(0x2000, 64),
                Token::Load(4),
                Token::PushImm(42, 32),
                Token::Bin(BinOp::Eq),
                Token::GotoIf(0x200),
            ],
        },
    );
    let st = radius.call_state(0x100, &vec![Some(0x2000)]);
    match radius.run_until(st, 0x200, &vec![0x108], 1000) {
        RunResult::Found(s) => {
            assert_eq!(s.pc, 0x200);
            assert!(matches!(s.status, Status::TargetReached));
            let ints = s.context_get("ints").unwrap();
            assert_eq!(ints.len(), 1);
            // concretizing the recorded input under the found path
            // condition recovers the value the comparison demands
            assert_eq!(s.solver.eval_to_u64(&ints[0]), Some(42));
        },
        _ => panic!("target is reachable"),
    }
}

#[test]
fn run_until_dead_end_when_frontier_empties() {
    let mut radius = make_radius();
    // unconditional jump into the avoided address
    radius.processor.add_instruction(
        0x100,
        InstrSem { size: 4, tokens: vec![Token::Goto(0x300)] },
    );
    let st = radius.call_state(0x100, &vec![]);
    match radius.run_until(st, 0x200, &vec![0x300], 1000) {
        RunResult::DeadEnd => {},
        _ => panic!("every path hits the avoid set"),
    }
    // the discarded state records why it left the frontier
    assert!(radius.discarded.iter().any(|s| matches!(s.status, Status::AvoidHit)));
}

#[test]
fn run_until_times_out_on_step_bound() {
    let mut radius = make_radius();
    // a tight loop back to itself
    radius.processor.add_instruction(
        0x100,
        InstrSem { size: 4, tokens: vec![Token::Goto(0x100)] },
    );
    let st = radius.call_state(0x100, &vec![]);
    match radius.run_until(st, 0x200, &vec![], 50) {
        RunResult::Timeout => {},
        _ => panic!("the loop never reaches the target"),
    }
}

#[test]
fn division_by_symbolic_zero_kills_path() {
    let mut radius = make_radius();
    // r1 / r2 where r2 is concretely zero ends the path as an error
    radius.processor.add_instruction(
        0x100,
        InstrSem {
            size: 4,
            tokens: vec![
                Token::PushReg(1),
                Token::PushImm(0, 64),
                Token::Bin(BinOp::DivU),
                Token::PopReg(0),
            ],
        },
    );
    let st = radius.call_state(0x100, &vec![]);
    match radius.processor.step(st) {
        StepResult::Next(ss) => {
            assert_eq!(ss.len(), 1);
            assert!(matches!(ss[0].status, Status::Error));
        },
        _ => panic!("instruction was cached"),
    }
}

#[test]
fn width_operations_explicit() {
    let mut s = Solver::new();
    // sign extension carries the sign bit, zero extension does not
    let neg = conc(0xff, 8);
    assert_eq!(s.sext(&neg, 16).kind, VKind::Concrete(0xffff));
    assert_eq!(s.zext(&neg, 16).kind, VKind::Concrete(0x00ff));
    let wide = conc(0xabcd, 16);
    assert_eq!(s.trunc(&wide, 8).kind, VKind::Concrete(0xcd));
    // explicit composition and extraction
    let hi = conc(0xde, 8);
    let lo = conc(0xad, 8);
    let cat = s.concat(&hi, &lo);
    assert_eq!(cat.width, 16);
    assert_eq!(cat.kind, VKind::Concrete(0xdead));
    assert_eq!(s.byte_of(&cat, 1).kind, VKind::Concrete(0xde));
    assert_eq!(s.byte_of(&cat, 0).kind, VKind::Concrete(0xad));
}

#[test]
fn symbolic_width_operations_solve() {
    let mut s = Solver::new();
    let x = s.new_var("x".to_string(), 8);
    let wide = s.zext(&x, 16);
    let eq = s.apply_bin(BinOp::Eq, &wide, &conc(0x7b, 16)).unwrap();
    s.add_constraint(&eq);
    assert_eq!(s.eval_to_u64(&x), Some(0x7b));
}

#[test]
fn store_and_goto_tokens() {
    let mut radius = make_radius();
    // store a constant word at a fixed address, then jump
    radius.processor.add_instruction(
        0x100,
        InstrSem {
            size: 4,
            tokens: vec![
                Token::PushImm(0xcafe, 32),
                Token::PushImm(0x3000, 64),
                Token::Store(4),
                Token::Goto(0x180),
            ],
        },
    );
    let st = radius.call_state(0x100, &vec![]);
    match radius.processor.step(st) {
        StepResult::Next(mut ss) => {
            assert_eq!(ss.len(), 1);
            let mut s = ss.pop().unwrap();
            assert_eq!(s.pc, 0x180);
            let r = s.memory_read(0x3000, 4);
            assert_eq!(r.kind, VKind::Concrete(0xcafe));
        },
        _ => panic!("instruction was cached"),
    }
}
