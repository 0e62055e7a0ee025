//! Bit-precise values: a `Value` is a fixed-width bitvector (1 to 64 bits)
//! that is either a concrete unsigned integer or a handle into the owning
//! solver's expression arena. The spec functions here give the exact
//! wraparound (modulo `2^width`) meaning of every operator; signed
//! operations use two's-complement with truncated division.

use vstd::prelude::*;

verus! {

use vstd::arithmetic::power2::{
    pow2,
    lemma_pow2_adds,
    lemma_pow2_pos,
    lemma_pow2_strictly_increases,
    lemma2_to64,
    lemma2_to64_rest,
};
use vstd::arithmetic::div_mod::lemma_mod_bound;
use vstd::arithmetic::power2::lemma_pow2_unfold;
use vstd::bits::lemma_u64_shr_is_div;

/// Shifting one left by `e` computes `pow2(e)`, for exponents up to 64.
pub proof fn lemma_u128_one_shl(e: u128)
    requires
        e <= 64,
    ensures
        (1u128 << e) == pow2(e as nat),
    decreases e,
{
    if e == 0 {
        assert(1u128 << 0u128 == 1) by (bit_vector);
        lemma2_to64();
    } else {
        let d = (e - 1) as u128;
        lemma_u128_one_shl(d);
        assert((d < 64 && e == d + 1) ==> (1u128 << e) == 2 * (1u128 << d)) by (bit_vector);
        lemma_pow2_unfold(e as nat);
    }
}

/// Binary operators on two equal-width bitvectors. Comparisons produce a
/// one-bit value; all others produce a value of the operands' width.
#[derive(Clone, Copy, PartialEq, Eq, Structural, Debug)]
pub enum BinOp {
    Add,
    Sub,
    Mul,
    DivU,
    RemU,
    DivS,
    RemS,
    And,
    Or,
    Xor,
    Shl,
    Shr,
    Eq,
    Ult,
    Ule,
    Slt,
    Sle,
}

/// How a value is held: a literal integer, or an index into the owning
/// solver's expression arena.
#[derive(Clone, Copy, PartialEq, Eq, Structural, Debug)]
pub enum VKind {
    Concrete(u64),
    Symbolic(usize),
}

/// A fixed-width bitvector value, the unit of data everywhere in the
/// engine. Immutable once created.
#[derive(Clone, Copy, PartialEq, Eq, Structural, Debug)]
pub struct Value {
    pub width: u32,
    pub kind: VKind,
}

/// Widths the engine supports: one to sixty-four bits.
pub open spec fn wf_width(w: u32) -> bool {
    1 <= w <= 64
}

/// Whether `x` fits in `w` bits.
pub open spec fn in_width(x: u64, w: u32) -> bool {
    (x as nat) < pow2(w as nat)
}

/// The all-ones value of width `w`.
pub open spec fn mask_of(w: u32) -> u64
    recommends
        wf_width(w),
{
    (pow2(w as nat) - 1) as u64
}

/// The weight of the sign bit of width `w`.
pub open spec fn half_of(w: u32) -> u64
    recommends
        wf_width(w),
{
    pow2((w - 1) as nat) as u64
}

/// Whether `x`, read as a `w`-bit two's-complement integer, is negative.
pub open spec fn is_neg(x: u64, w: u32) -> bool {
    x >= half_of(w)
}

/// The magnitude of `x` read as a `w`-bit two's-complement integer.
pub open spec fn s_abs(x: u64, w: u32) -> u64 {
    if is_neg(x, w) {
        (pow2(w as nat) - x) as u64
    } else {
        x
    }
}

/// Two's-complement negation modulo `2^w`.
pub open spec fn bv_neg(x: u64, w: u32) -> u64 {
    ((pow2(w as nat) - x) % (pow2(w as nat) as int)) as u64
}

/// The signed integer `x` stands for at width `w`.
pub open spec fn to_signed(x: u64, w: u32) -> int {
    if is_neg(x, w) {
        x - pow2(w as nat)
    } else {
        x as int
    }
}

/// One for true, zero for false, as a one-bit value.
pub open spec fn bool_bit(b: bool) -> u64 {
    if b {
        1
    } else {
        0
    }
}

/// The width of a binary operation's result: one bit for comparisons,
/// the operands' width otherwise.
pub open spec fn bin_width(op: BinOp, w: u32) -> u32 {
    match op {
        BinOp::Eq | BinOp::Ult | BinOp::Ule | BinOp::Slt | BinOp::Sle => 1,
        _ => w,
    }
}

/// Exact meaning of every binary operator on `w`-bit values, with
/// wraparound semantics. Division and remainder by zero yield the
/// all-ones value and the dividend respectively (the engine reports
/// `DivideByZeroForced` before ever relying on that case for a divisor
/// that is concretely zero); signed division truncates toward zero and
/// the signed remainder takes the dividend's sign. Shift amounts are
/// taken modulo the width.
pub open spec fn bv_bin(op: BinOp, x: u64, y: u64, w: u32) -> u64
    recommends
        wf_width(w),
        in_width(x, w),
        in_width(y, w),
{
    let pw = pow2(w as nat) as int;
    match op {
        BinOp::Add => ((x + y) % pw) as u64,
        BinOp::Sub => ((x + pw - y) % pw) as u64,
        BinOp::Mul => ((x * y) % pw) as u64,
        BinOp::DivU => if y == 0 {
            mask_of(w)
        } else {
            x / y
        },
        BinOp::RemU => if y == 0 {
            x
        } else {
            x % y
        },
        BinOp::DivS => if y == 0 {
            mask_of(w)
        } else {
            let q = s_abs(x, w) / s_abs(y, w);
            if is_neg(x, w) != is_neg(y, w) {
                bv_neg(q, w)
            } else {
                q
            }
        },
        BinOp::RemS => if y == 0 {
            x
        } else {
            let r = s_abs(x, w) % s_abs(y, w);
            if is_neg(x, w) {
                bv_neg(r, w)
            } else {
                r
            }
        },
        BinOp::And => x & y,
        BinOp::Or => x | y,
        BinOp::Xor => x ^ y,
        BinOp::Shl => ((x * pow2((y as nat) % (w as nat))) % pw) as u64,
        BinOp::Shr => ((x as nat) / pow2((y as nat) % (w as nat))) as u64,
        BinOp::Eq => bool_bit(x == y),
        BinOp::Ult => bool_bit(x < y),
        BinOp::Ule => bool_bit(x <= y),
        BinOp::Slt => bool_bit(to_signed(x, w) < to_signed(y, w)),
        BinOp::Sle => bool_bit(to_signed(x, w) <= to_signed(y, w)),
    }
}

/// Arithmetic fidelity: on `w`-bit operands, addition, subtraction and
/// multiplication compute exactly the mathematical result modulo `2^w`,
/// where subtraction is the (possibly negative) integer difference taken
/// modulo `2^w`.
pub proof fn lemma_arithmetic_fidelity(x: u64, y: u64, w: u32)
    requires
        wf_width(w),
        in_width(x, w),
        in_width(y, w),
    ensures
        bv_bin(BinOp::Add, x, y, w) == (x + y) % (pow2(w as nat) as int),
        bv_bin(BinOp::Sub, x, y, w) == (x - y) % (pow2(w as nat) as int),
        bv_bin(BinOp::Mul, x, y, w) == (x * y) % (pow2(w as nat) as int),
{
    let p = pow2(w as nat) as int;
    lemma_pow2_pos(w as nat);
    lemma_pow2_le_64(w);
    lemma_mod_bound((x + y) as int, p);
    lemma_mod_bound((x + p - y) as int, p);
    lemma_mod_bound((x * y) as int, p);
    vstd::arithmetic::div_mod::lemma_mod_add_multiples_vanish(x - y, p);
    assert((x + p - y) % p == (x - y) % p);
}

/// Bitwise complement within `w` bits.
pub open spec fn bv_not(x: u64, w: u32) -> u64 {
    (mask_of(w) - x) as u64
}

/// Sign extension from `w` to `nw` bits.
pub open spec fn bv_sext(x: u64, w: u32, nw: u32) -> u64 {
    if is_neg(x, w) {
        (x + pow2(nw as nat) - pow2(w as nat)) as u64
    } else {
        x
    }
}

/// Truncation to the low `nw` bits.
pub open spec fn bv_trunc(x: u64, nw: u32) -> u64 {
    ((x as nat) % pow2(nw as nat)) as u64
}

/// Concatenation: `hi` above a `lo_w`-bit `lo`.
pub open spec fn bv_concat(hi: u64, lo: u64, lo_w: u32) -> u64 {
    (hi * pow2(lo_w as nat) + lo) as u64
}

/// Byte `i` (by significance, zero is least significant) of `x`.
pub open spec fn bv_byte(x: u64, i: u32) -> u64 {
    (((x as nat) / pow2((8 * i) as nat)) % 256) as u64
}

impl Value {
    /// Whether this value is well formed against an arena of `arena_len`
    /// expressions: legal width, a concrete payload inside the width, a
    /// symbolic handle inside the arena.
    pub open spec fn wf_in(self, arena_len: nat) -> bool {
        &&& wf_width(self.width)
        &&& match self.kind {
            VKind::Concrete(c) => in_width(c, self.width),
            VKind::Symbolic(i) => i < arena_len,
        }
    }

    pub open spec fn is_concrete(self) -> bool {
        self.kind is Concrete
    }
}

/// `pow2(w)` fits strictly above every `w`-bit value and, for `w <= 64`,
/// at or below `2^64`.
pub proof fn lemma_pow2_le_64(w: u32)
    requires
        w <= 64,
    ensures
        pow2(w as nat) <= pow2(64),
        pow2(64) == 0x10000000000000000,
        pow2(w as nat) >= 1,
{
    lemma2_to64();
    lemma2_to64_rest();
    lemma_pow2_pos(w as nat);
    if w < 64 {
        lemma_pow2_strictly_increases(w as nat, 64);
    }
}

/// Every `u64` fits in sixty-four bits.
pub proof fn lemma_u64_in_64(x: u64)
    ensures
        in_width(x, 64),
{
    lemma2_to64();
    lemma2_to64_rest();
}

/// The magnitude of a `w`-bit value is at most the sign-bit weight, and
/// is zero exactly for zero.
proof fn lemma_s_abs_bound(x: u64, w: u32)
    requires
        wf_width(w),
        in_width(x, w),
    ensures
        s_abs(x, w) <= half_of(w),
        x == 0 <==> s_abs(x, w) == 0,
        in_width(s_abs(x, w), w) || s_abs(x, w) == half_of(w),
{
    lemma_pow2_adds((w - 1) as nat, 1);
    lemma2_to64();
    lemma_pow2_pos((w - 1) as nat);
    lemma_pow2_le_64(w);
    lemma_pow2_le_64((w - 1) as u32);
    assert(pow2(w as nat) == pow2((w - 1) as nat) * 2);
}

/// The result of every binary operation fits in the result width.
pub proof fn lemma_bv_bin_in_width(op: BinOp, x: u64, y: u64, w: u32)
    requires
        wf_width(w),
        in_width(x, w),
        in_width(y, w),
    ensures
        in_width(bv_bin(op, x, y, w), bin_width(op, w)),
{
    let pw = pow2(w as nat) as int;
    lemma_pow2_pos(w as nat);
    lemma2_to64();
    match op {
        BinOp::Add => {
            lemma_mod_bound((x + y) as int, pw);
        },
        BinOp::Sub => {
            lemma_mod_bound((x + pw - y) as int, pw);
        },
        BinOp::Mul => {
            lemma_mod_bound((x * y) as int, pw);
        },
        BinOp::DivU => {
            if y != 0 {
                assert(x / y <= x) by (nonlinear_arith)
                    requires y >= 1;
            }
        },
        BinOp::RemU => {
            if y != 0 {
                assert(x % y <= x) by (nonlinear_arith)
                    requires y >= 1;
            }
        },
        BinOp::DivS => {
            if y != 0 {
                lemma_s_abs_bound(x, w);
                lemma_s_abs_bound(y, w);
                let ax = s_abs(x, w);
                let ay = s_abs(y, w);
                assert(ax / ay <= ax) by (nonlinear_arith)
                    requires ay >= 1;
                lemma_pow2_strictly_increases((w - 1) as nat, w as nat);
                lemma_mod_bound(pw - (ax / ay), pw);
            }
        },
        BinOp::RemS => {
            if y != 0 {
                lemma_s_abs_bound(x, w);
                lemma_s_abs_bound(y, w);
                let ax = s_abs(x, w);
                let ay = s_abs(y, w);
                assert(ax % ay < ay) by (nonlinear_arith)
                    requires ay >= 1;
                lemma_pow2_strictly_increases((w - 1) as nat, w as nat);
                lemma_mod_bound(pw - (ax % ay), pw);
            }
        },
        BinOp::And => {
            assert(x & y <= x) by (bit_vector);
        },
        BinOp::Or => {
            lemma_or_xor_in_width(x, y, w);
        },
        BinOp::Xor => {
            lemma_or_xor_in_width(x, y, w);
        },
        BinOp::Shl => {
            lemma_mod_bound((x * pow2((y as nat) % (w as nat))) as int, pw);
        },
        BinOp::Shr => {
            let sh = pow2((y as nat) % (w as nat));
            lemma_pow2_pos((y as nat) % (w as nat));
            assert((x as nat) / sh <= x as nat) by (nonlinear_arith)
                requires sh >= 1;
        },
        BinOp::Eq | BinOp::Ult | BinOp::Ule | BinOp::Slt | BinOp::Sle => {
        },
    }
}

/// Bitwise or and xor of two `w`-bit values stay inside `w` bits.
proof fn lemma_or_xor_in_width(x: u64, y: u64, w: u32)
    requires
        wf_width(w),
        in_width(x, w),
        in_width(y, w),
    ensures
        in_width(x | y, w),
        in_width(x ^ y, w),
{
    if w == 64 {
        lemma_u64_in_64(x | y);
        lemma_u64_in_64(x ^ y);
    } else {
        lemma_u128_one_shl(w as u128);
        assert((1u128 << (w as u128)) == pow2(w as nat));
        lemma_pow2_le_64(w);
        let wu: u128 = w as u128;
        assert(((x as u128) < (1u128 << wu) && (y as u128) < (1u128 << wu) && wu < 64) ==> (((x
            | y) as u128) < (1u128 << wu) && ((x ^ y) as u128) < (1u128 << wu))) by (bit_vector);
    }
}

/// The complement of a `w`-bit value stays inside `w` bits.
pub proof fn lemma_bv_not_in_width(x: u64, w: u32)
    requires
        wf_width(w),
        in_width(x, w),
    ensures
        in_width(bv_not(x, w), w),
{
    lemma_pow2_le_64(w);
}

/// Sign extension lands inside the new width.
pub proof fn lemma_bv_sext_in_width(x: u64, w: u32, nw: u32)
    requires
        wf_width(w),
        wf_width(nw),
        w <= nw,
        in_width(x, w),
    ensures
        in_width(bv_sext(x, w, nw), nw),
{
    lemma_pow2_le_64(w);
    lemma_pow2_le_64(nw);
    if w < nw {
        lemma_pow2_strictly_increases(w as nat, nw as nat);
    }
}

/// Truncation lands inside the new width.
pub proof fn lemma_bv_trunc_in_width(x: u64, nw: u32)
    requires
        wf_width(nw),
    ensures
        in_width(bv_trunc(x, nw), nw),
{
    lemma_pow2_pos(nw as nat);
    lemma_pow2_le_64(nw);
    lemma_mod_bound(x as int, pow2(nw as nat) as int);
}

/// Concatenation of a `hi_w`-bit and a `lo_w`-bit value fits in their
/// combined width.
pub proof fn lemma_bv_concat_in_width(hi: u64, lo: u64, hi_w: u32, lo_w: u32)
    requires
        wf_width(hi_w),
        wf_width(lo_w),
        hi_w + lo_w <= 64,
        in_width(hi, hi_w),
        in_width(lo, lo_w),
    ensures
        in_width(bv_concat(hi, lo, lo_w), (hi_w + lo_w) as u32),
{
    lemma_pow2_le_64(lo_w);
    lemma_pow2_le_64((hi_w + lo_w) as u32);
    lemma_pow2_adds(hi_w as nat, lo_w as nat);
    assert(hi * pow2(lo_w as nat) + lo < pow2((hi_w + lo_w) as nat)) by (nonlinear_arith)
        requires
            (hi as nat) < pow2(hi_w as nat),
            (lo as nat) < pow2(lo_w as nat),
            pow2((hi_w + lo_w) as nat) == pow2(hi_w as nat) * pow2(lo_w as nat),
    ;
}

/// A byte extracted from any value fits in eight bits.
pub proof fn lemma_bv_byte_in_width(x: u64, i: u32)
    ensures
        in_width(bv_byte(x, i), 8),
{
    lemma2_to64();
    lemma_pow2_pos((8 * i) as nat);
    lemma_mod_bound(((x as nat) / pow2((8 * i) as nat)) as int, 256);
}

/// Compute a binary operation on two concrete `w`-bit values. The result
/// is exactly the spec-level `bv_bin` meaning; a comparison yields the
/// one-bit truth value.
pub fn exec_bv_bin(op: BinOp, x: u64, y: u64, w: u32) -> (r: u64)
    requires
        wf_width(w),
        in_width(x, w),
        in_width(y, w),
    ensures
        r == bv_bin(op, x, y, w),
        in_width(r, bin_width(op, w)),
{
    proof {
        lemma_bv_bin_in_width(op, x, y, w);
        lemma_u128_one_shl(w as u128);
        lemma_pow2_le_64(w);
    }
    let pw: u128 = 1u128 << (w as u128);
    match op {
        BinOp::Add => (((x as u128) + (y as u128)) % pw) as u64,
        BinOp::Sub => (((x as u128) + pw - (y as u128)) % pw) as u64,
        BinOp::Mul => {
            proof {
                vstd::arithmetic::mul::lemma_mul_upper_bound(
                    x as int,
                    0xffff_ffff_ffff_ffff,
                    y as int,
                    0xffff_ffff_ffff_ffff,
                );
            }
            (((x as u128) * (y as u128)) % pw) as u64
        },
        BinOp::DivU => {
            if y == 0 {
                (pw - 1) as u64
            } else {
                x / y
            }
        },
        BinOp::RemU => {
            if y == 0 {
                x
            } else {
                x % y
            }
        },
        BinOp::DivS => {
            if y == 0 {
                (pw - 1) as u64
            } else {
                proof {
                    lemma_s_abs_bound(x, w);
                    lemma_s_abs_bound(y, w);
                }
                let half: u64 = (pw / 2) as u64;
                let nx = x >= half;
                let ny = y >= half;
                let ax: u64 = if nx {
                    (pw - (x as u128)) as u64
                } else {
                    x
                };
                let ay: u64 = if ny {
                    (pw - (y as u128)) as u64
                } else {
                    y
                };
                proof {
                    lemma_pow2_adds((w - 1) as nat, 1);
                    lemma2_to64();
                    assert(half == half_of(w));
                }
                let q = ax / ay;
                if nx != ny {
                    ((pw - (q as u128)) % pw) as u64
                } else {
                    q
                }
            }
        },
        BinOp::RemS => {
            if y == 0 {
                x
            } else {
                proof {
                    lemma_s_abs_bound(x, w);
                    lemma_s_abs_bound(y, w);
                }
                let half: u64 = (pw / 2) as u64;
                let nx = x >= half;
                let ny = y >= half;
                let ax: u64 = if nx {
                    (pw - (x as u128)) as u64
                } else {
                    x
                };
                let ay: u64 = if ny {
                    (pw - (y as u128)) as u64
                } else {
                    y
                };
                proof {
                    lemma_pow2_adds((w - 1) as nat, 1);
                    lemma2_to64();
                    assert(half == half_of(w));
                }
                let rm = ax % ay;
                if nx {
                    ((pw - (rm as u128)) % pw) as u64
                } else {
                    rm
                }
            }
        },
        BinOp::And => x & y,
        BinOp::Or => x | y,
        BinOp::Xor => x ^ y,
        BinOp::Shl => {
            let sh: u64 = y % (w as u64);
            proof {
                lemma_u128_one_shl(sh as u128);
            }
            let shp: u128 = 1u128 << (sh as u128);
            proof {
                assert((sh as u128) < 64 ==> (1u128 << (sh as u128))
                    <= 0x8000_0000_0000_0000u128) by (bit_vector);
                vstd::arithmetic::mul::lemma_mul_upper_bound(
                    x as int,
                    0xffff_ffff_ffff_ffff,
                    shp as int,
                    0x8000_0000_0000_0000,
                );
            }
            (((x as u128) * shp) % pw) as u64
        },
        BinOp::Shr => {
            let sh: u64 = y % (w as u64);
            proof {
                lemma_u64_shr_is_div(x, sh);
            }
            x >> sh
        },
        BinOp::Eq => {
            if x == y {
                1
            } else {
                0
            }
        },
        BinOp::Ult => {
            if x < y {
                1
            } else {
                0
            }
        },
        BinOp::Ule => {
            if x <= y {
                1
            } else {
                0
            }
        },
        BinOp::Slt => {
            let half: u64 = (pw / 2) as u64;
            proof {
                lemma_pow2_adds((w - 1) as nat, 1);
                lemma2_to64();
                assert(half == half_of(w));
            }
            let nx = x >= half;
            let ny = y >= half;
            if nx != ny {
                if nx {
                    1
                } else {
                    0
                }
            } else {
                if x < y {
                    1
                } else {
                    0
                }
            }
        },
        BinOp::Sle => {
            let half: u64 = (pw / 2) as u64;
            proof {
                lemma_pow2_adds((w - 1) as nat, 1);
                lemma2_to64();
                assert(half == half_of(w));
            }
            let nx = x >= half;
            let ny = y >= half;
            if nx != ny {
                if nx {
                    1
                } else {
                    0
                }
            } else {
                if x <= y {
                    1
                } else {
                    0
                }
            }
        },
    }
}

/// Compute the complement of a concrete `w`-bit value.
pub fn exec_bv_not(x: u64, w: u32) -> (r: u64)
    requires
        wf_width(w),
        in_width(x, w),
    ensures
        r == bv_not(x, w),
        in_width(r, w),
{
    proof {
        lemma_u128_one_shl(w as u128);
        lemma_pow2_le_64(w);
    }
    let pw: u128 = 1u128 << (w as u128);
    ((pw - 1 - (x as u128))) as u64
}

/// Compute sign extension of a concrete value from `w` to `nw` bits.
pub fn exec_bv_sext(x: u64, w: u32, nw: u32) -> (r: u64)
    requires
        wf_width(w),
        wf_width(nw),
        w <= nw,
        in_width(x, w),
    ensures
        r == bv_sext(x, w, nw),
        in_width(r, nw),
{
    proof {
        lemma_u128_one_shl(w as u128);
        lemma_u128_one_shl(nw as u128);
        lemma_pow2_le_64(w);
        lemma_pow2_le_64(nw);
        lemma_pow2_adds((w - 1) as nat, 1);
        lemma2_to64();
        if w < nw {
            lemma_pow2_strictly_increases(w as nat, nw as nat);
        }
    }
    let pw: u128 = 1u128 << (w as u128);
    let pn: u128 = 1u128 << (nw as u128);
    let half: u64 = (pw / 2) as u64;
    if x >= half {
        (((x as u128) + pn - pw)) as u64
    } else {
        x
    }
}

/// Compute truncation of a concrete value to its low `nw` bits.
pub fn exec_bv_trunc(x: u64, nw: u32) -> (r: u64)
    requires
        wf_width(nw),
    ensures
        r == bv_trunc(x, nw),
        in_width(r, nw),
{
    proof {
        lemma_u128_one_shl(nw as u128);
        lemma_pow2_le_64(nw);
        lemma_pow2_pos(nw as nat);
        lemma_mod_bound(x as int, pow2(nw as nat) as int);
    }
    let pn: u128 = 1u128 << (nw as u128);
    ((x as u128) % pn) as u64
}

/// Compute concatenation of concrete values: `hi` above a `lo_w`-bit `lo`.
pub fn exec_bv_concat(hi: u64, lo: u64, hi_w: u32, lo_w: u32) -> (r: u64)
    requires
        wf_width(hi_w),
        wf_width(lo_w),
        hi_w + lo_w <= 64,
        in_width(hi, hi_w),
        in_width(lo, lo_w),
    ensures
        r == bv_concat(hi, lo, lo_w),
        in_width(r, (hi_w + lo_w) as u32),
{
    proof {
        lemma_u128_one_shl(lo_w as u128);
        lemma_pow2_le_64(lo_w);
        lemma_pow2_le_64((hi_w + lo_w) as u32);
        lemma_pow2_adds(hi_w as nat, lo_w as nat);
        assert(hi * pow2(lo_w as nat) + lo < pow2((hi_w + lo_w) as nat)) by (nonlinear_arith)
            requires
                (hi as nat) < pow2(hi_w as nat),
                (lo as nat) < pow2(lo_w as nat),
                pow2((hi_w + lo_w) as nat) == pow2(hi_w as nat) * pow2(lo_w as nat),
        ;
    }
    let pl: u128 = 1u128 << (lo_w as u128);
    (((hi as u128) * pl + (lo as u128))) as u64
}

/// Compute byte `i` (by significance) of a concrete value.
pub fn exec_bv_byte(x: u64, i: u32) -> (r: u64)
    requires
        i < 8,
    ensures
        r == bv_byte(x, i),
        in_width(r, 8),
{
    proof {
        lemma_u128_one_shl((8 * i) as u128);
        lemma_pow2_le_64((8 * i) as u32);
        lemma_pow2_pos((8 * i) as nat);
        lemma2_to64();
        lemma_mod_bound(((x as nat) / pow2((8 * i) as nat)) as int, 256);
    }
    let pi: u128 = 1u128 << ((8 * i) as u128);
    (((x as u128) / pi) % 256) as u64
}

} // verus!
