//! Data model of the binary-introspection backend: architecture metadata,
//! register and symbol catalogues, and the hex codec used on the wire.
//! The backend process itself is driven by unverified adapter code; only
//! the plain-value records and pure helpers live here.

use vstd::prelude::*;

verus! {

use vstd::string::StringSliceAdditionalSpecFns;
use vstd::string::StrSliceExecFns;
use vstd::string::StringExecFns;

/// Byte order of the target architecture, as the backend reports it.
#[derive(Debug, Clone, Copy, PartialEq, Eq, Structural)]
pub enum Endian {
    Little,
    Big,
    Mixed,
    Unknown,
}

/// Argument and return-value register names for one calling convention.
#[derive(Debug, Clone)]
pub struct CallingConvention {
    pub ret: String,
    pub args: Vec<String>,
}

/// One disassembled instruction as the backend reports it.
#[derive(Debug, Clone)]
pub struct Instruction {
    pub offset: u64,
    pub size: u64,
    pub opcode: String,
    pub disasm: String,
    pub esil: String,
    pub bytes: String,
    pub ty: String,
    pub type_num: i64,
    pub jump: i64,
    pub fail: i64,
}

/// One loadable segment of the binary image.
#[derive(Debug, Clone)]
pub struct Segment {
    pub name: String,
    pub size: u64,
    pub vsize: u64,
    pub perm: String,
    pub paddr: u64,
    pub vaddr: u64,
}

/// Access rights of a mapped region.
#[derive(Debug, Clone)]
pub struct Permission {
    pub initialized: bool,
    pub read: bool,
    pub write: bool,
    pub execute: bool,
}

/// A register alias (role) entry of the register catalogue.
#[derive(Debug, Clone)]
pub struct AliasInfo {
    pub reg: String,
    pub role: u64,
    pub role_str: String,
}

/// One register of the catalogue: its name, kind, bit width and offset.
#[derive(Debug, Clone)]
pub struct RegisterInfo {
    pub name: String,
    pub ty: u64,
    pub type_str: String,
    pub size: u64,
    pub offset: u64,
}

/// The full register catalogue the backend reports for an architecture.
#[derive(Debug, Clone)]
pub struct RegisterInformation {
    pub alias_info: Vec<AliasInfo>,
    pub reg_info: Vec<RegisterInfo>,
}

/// File-level facts about the loaded binary.
#[derive(Debug, Clone)]
pub struct CoreInfo {
    pub file: String,
    pub size: u64,
    pub mode: String,
    pub format: String,
}

/// Architecture-level facts about the loaded binary.
#[derive(Debug, Clone)]
pub struct BinInfo {
    pub arch: String,
    pub bintype: String,
    pub bits: u64,
    pub canary: bool,
    pub endian: String,
    pub os: String,
    pub nx: bool,
}

/// Combined binary metadata.
#[derive(Debug, Clone)]
pub struct Information {
    pub core: CoreInfo,
    pub bin: BinInfo,
}

/// One syscall of the target OS/ABI.
#[derive(Debug, Clone)]
pub struct Syscall {
    pub name: String,
    pub swi: u64,
    pub num: u64,
}

/// A cross reference between two addresses.
#[derive(Debug, Clone)]
pub struct CrossRef {
    pub addr: u64,
    pub ty: String,
    pub at: u64,
}

/// Base register and offset of a local variable.
#[derive(Debug, Clone)]
pub struct VarRef {
    pub base: String,
    pub offset: u64,
}

/// A local variable of a function.
#[derive(Debug, Clone)]
pub struct Variable {
    pub name: String,
    pub kind: String,
    pub ty: String,
    pub vref: VarRef,
}

/// Everything the backend reports about one function.
#[derive(Debug, Clone)]
pub struct FunctionInfo {
    pub offset: u64,
    pub name: String,
    pub size: u64,
    pub realsz: u64,
    pub noreturn: bool,
    pub stackframe: u64,
    pub calltype: String,
    pub cost: u64,
    pub cc: u64,
    pub bits: u64,
    pub ty: String,
    pub nbbs: u64,
    pub edges: u64,
    pub ebbs: u64,
    pub signature: String,
    pub minbound: u64,
    pub maxbound: u64,
    pub callrefs: Vec<CrossRef>,
    pub datarefs: Vec<u64>,
    pub codexrefs: Vec<CrossRef>,
    pub dataxrefs: Vec<CrossRef>,
    pub indegree: u64,
    pub outdegree: u64,
    pub nlocals: u64,
    pub nargs: u64,
    pub bpvars: Vec<Variable>,
    pub spvars: Vec<Variable>,
    pub regvars: Vec<Variable>,
    pub difftype: String,
}

/// One basic block of a function's control-flow graph.
#[derive(Debug, Clone)]
pub struct BasicBlock {
    pub opaddr: u64,
    pub addr: u64,
    pub size: u64,
    pub inputs: u64,
    pub outputs: u64,
    pub ninstr: u64,
    pub traced: bool,
    pub jump: i64,
    pub fail: i64,
}

/// One symbol of the binary's symbol table.
#[derive(Debug, Clone)]
pub struct Symbol {
    pub name: String,
    pub flagname: String,
    pub realname: String,
    pub ordinal: usize,
    pub bind: String,
    pub size: usize,
    pub ty: String,
    pub vaddr: u64,
    pub paddr: u64,
    pub is_imported: bool,
}

/// One imported function of the binary.
#[derive(Debug, Clone)]
pub struct Import {
    pub ordinal: usize,
    pub bind: String,
    pub ty: String,
    pub name: String,
    pub plt: u64,
}

pub type R2Result<T> = Result<T, String>;

/// Compare two string slices character by character.
pub fn str_eq(a: &str, b: &str) -> (r: bool)
    ensures
        r == (a@ == b@),
{
    let la = a.unicode_len();
    let lb = b.unicode_len();
    if la != lb {
        return false;
    }
    let mut i: usize = 0;
    while i < la
        invariant
            la == a@.len(),
            la == b@.len(),
            0 <= i <= la,
            forall|j: int| 0 <= j < i ==> a@[j] == b@[j],
        decreases la - i,
    {
        if a.get_char(i) != b.get_char(i) {
            return false;
        }
        i = i + 1;
    }
    proof {
        assert(a@ =~= b@);
    }
    true
}

impl Endian {
    /// Map the backend's textual byte-order name to an `Endian` value;
    /// anything unrecognised is `Unknown`.
    pub fn from_string(end: &str) -> (r: Endian)
        ensures
            r == (if end@ == "little"@ {
                Endian::Little
            } else if end@ == "big"@ {
                Endian::Big
            } else if end@ == "mixed"@ {
                Endian::Mixed
            } else {
                Endian::Unknown
            }),
    {
        if str_eq(end, "little") {
            Endian::Little
        } else if str_eq(end, "big") {
            Endian::Big
        } else if str_eq(end, "mixed") {
            Endian::Mixed
        } else {
            Endian::Unknown
        }
    }
}

/// Collapse any deserialization failure into the backend error string,
/// keeping a successful value as it is.
pub fn r2_result<T, E>(result: Result<T, E>) -> (r: R2Result<T>)
    ensures
        result is Ok <==> r is Ok,
        result is Ok ==> r == Ok::<T, String>(result->Ok_0),
        result is Err ==> r is Err && r->Err_0@ == "Deserialization error"@,
{
    if let Ok(res) = result {
        Ok(res)
    } else {
        let msg: &str = "Deserialization error";
        Err(msg.to_owned())
    }
}

/// The character that stands for a four-bit value in lower-case hex.
pub open spec fn hex_digit_char(n: u8) -> char {
    if n == 0 {
        '0'
    } else if n == 1 {
        '1'
    } else if n == 2 {
        '2'
    } else if n == 3 {
        '3'
    } else if n == 4 {
        '4'
    } else if n == 5 {
        '5'
    } else if n == 6 {
        '6'
    } else if n == 7 {
        '7'
    } else if n == 8 {
        '8'
    } else if n == 9 {
        '9'
    } else if n == 10 {
        'a'
    } else if n == 11 {
        'b'
    } else if n == 12 {
        'c'
    } else if n == 13 {
        'd'
    } else if n == 14 {
        'e'
    } else {
        'f'
    }
}

/// A one-character string holding the hex digit for a four-bit value.
fn nibble_str(n: u8) -> (r: &'static str)
    requires
        n < 16,
    ensures
        r@ =~= seq![hex_digit_char(n)],
{
    proof {
        reveal_strlit("0");
        reveal_strlit("1");
        reveal_strlit("2");
        reveal_strlit("3");
        reveal_strlit("4");
        reveal_strlit("5");
        reveal_strlit("6");
        reveal_strlit("7");
        reveal_strlit("8");
        reveal_strlit("9");
        reveal_strlit("a");
        reveal_strlit("b");
        reveal_strlit("c");
        reveal_strlit("d");
        reveal_strlit("e");
        reveal_strlit("f");
    }
    match n {
        0 => "0",
        1 => "1",
        2 => "2",
        3 => "3",
        4 => "4",
        5 => "5",
        6 => "6",
        7 => "7",
        8 => "8",
        9 => "9",
        10 => "a",
        11 => "b",
        12 => "c",
        13 => "d",
        14 => "e",
        _ => "f",
    }
}

/// Encode bytes as lower-case hex pairs, most significant nibble first,
/// as the backend's wire protocol expects.
pub fn hex_encode(data: &[u8]) -> (r: String)
    ensures
        r@.len() == 2 * data@.len(),
        forall|i: int|
            0 <= i < data@.len() ==> r@[2 * i] == hex_digit_char((data@[i] / 16) as u8) && r@[2 * i
                + 1] == hex_digit_char((data@[i] % 16) as u8),
{
    let mut r = String::new();
    let mut i: usize = 0;
    while i < data.len()
        invariant
            0 <= i <= data@.len(),
            r@.len() == 2 * i,
            forall|j: int|
                0 <= j < i ==> r@[2 * j] == hex_digit_char((data@[j] / 16) as u8) && r@[2 * j + 1]
                    == hex_digit_char((data@[j] % 16) as u8),
        decreases data@.len() - i,
    {
        let b = data[i];
        r.append(nibble_str(b / 16));
        r.append(nibble_str(b % 16));
        i = i + 1;
    }
    r
}

/// Whether a byte is an ASCII hex digit, upper or lower case.
pub open spec fn is_hex_digit(b: u8) -> bool {
    (48 <= b <= 57) || (97 <= b <= 102) || (65 <= b <= 70)
}

/// The four-bit value an ASCII hex digit stands for.
pub open spec fn hex_digit_val(b: u8) -> u8 {
    if 48 <= b <= 57 {
        (b - 48) as u8
    } else if 97 <= b <= 102 {
        (b - 87) as u8
    } else if 65 <= b <= 70 {
        (b - 55) as u8
    } else {
        0
    }
}

/// The four-bit value of one ASCII hex digit byte.
fn hex_val(b: u8) -> (r: u8)
    requires
        is_hex_digit(b),
    ensures
        r == hex_digit_val(b),
        r < 16,
{
    if b >= 97 {
        b - 87
    } else if b >= 65 {
        b - 55
    } else {
        b - 48
    }
}

/// Decode a string of hex pairs, upper or lower case, into bytes; a
/// trailing unpaired digit is ignored, as the backend never sends one.
pub fn hex_decode(data: &str) -> (r: Vec<u8>)
    requires
        forall|i: int| 0 <= i < 2 * (data.spec_bytes().len() / 2) ==> is_hex_digit(
            #[trigger] data.spec_bytes()[i],
        ),
    ensures
        r@.len() == data.spec_bytes().len() / 2,
        forall|i: int|
            0 <= i < r@.len() ==> r@[i] == 16 * hex_digit_val(data.spec_bytes()[2 * i])
                + hex_digit_val(data.spec_bytes()[2 * i + 1]),
{
    let bytes = data.as_bytes();
    let blen = bytes.len();
    let n = blen / 2;
    let mut r: Vec<u8> = Vec::new();
    let mut i: usize = 0;
    while i < n
        invariant
            bytes@ == data.spec_bytes(),
            blen == bytes@.len(),
            n == bytes@.len() / 2,
            forall|k: int| 0 <= k < 2 * n ==> is_hex_digit(#[trigger] bytes@[k]),
            0 <= i <= n,
            r@.len() == i,
            forall|k: int|
                0 <= k < i ==> r@[k] == 16 * hex_digit_val(bytes@[2 * k]) + hex_digit_val(
                    bytes@[2 * k + 1],
                ),
        decreases n - i,
    {
        let hi = hex_val(bytes[2 * i]);
        let lo = hex_val(bytes[2 * i + 1]);
        r.push(16 * hi + lo);
        i = i + 1;
    }
    r
}

/// The numeric value of a digit string read in the given base, most
/// significant digit first.
pub open spec fn radix_num(bs: Seq<u8>, base: nat) -> nat
    decreases bs.len(),
{
    if bs.len() == 0 {
        0
    } else {
        radix_num(bs.drop_last(), base) * base + hex_digit_val(bs.last()) as nat
    }
}

/// Whether a byte is an ASCII decimal digit.
pub open spec fn is_dec_digit(b: u8) -> bool {
    48 <= b <= 57
}

/// Reading a prefix of a digit string never exceeds reading all of it.
proof fn lemma_radix_prefix_le(bs: Seq<u8>, k: int, base: nat)
    requires
        0 <= k <= bs.len(),
        base >= 1,
    ensures
        radix_num(bs.subrange(0, k), base) <= radix_num(bs, base),
    decreases bs.len() - k,
{
    if k == bs.len() {
        assert(bs.subrange(0, k) =~= bs);
    } else {
        lemma_radix_prefix_le(bs.drop_last(), k, base);
        assert(bs.drop_last().subrange(0, k) =~= bs.subrange(0, k));
        assert(radix_num(bs, base) == radix_num(bs.drop_last(), base) * base + hex_digit_val(
            bs.last(),
        ));
        assert(radix_num(bs.drop_last(), base) * base >= radix_num(bs.drop_last(), base) * 1)
            by (nonlinear_arith)
            requires base >= 1, radix_num(bs.drop_last(), base) >= 0;
    }
}

/// Parse an unsigned hex numeral, as the backend prints addresses and
/// register values. `Some` exactly when the string is nonempty, every
/// byte is a hex digit, and the value fits in a machine word.
pub fn parse_hex_u64(s: &str) -> (r: Option<u64>)
    ensures
        r matches Some(v) ==> s.spec_bytes().len() >= 1 && (forall|i: int|
            0 <= i < s.spec_bytes().len() ==> is_hex_digit(#[trigger] s.spec_bytes()[i])) && v
            == radix_num(s.spec_bytes(), 16),
        r is None ==> s.spec_bytes().len() == 0 || (exists|i: int|
            0 <= i < s.spec_bytes().len() && !is_hex_digit(#[trigger] s.spec_bytes()[i]))
            || radix_num(s.spec_bytes(), 16) > u64::MAX,
{
    let bytes = s.as_bytes();
    let n = bytes.len();
    if n == 0 {
        return None;
    }
    let mut acc: u64 = 0;
    let mut i: usize = 0;
    while i < n
        invariant
            bytes@ == s.spec_bytes(),
            n == bytes@.len(),
            0 <= i <= n,
            acc == radix_num(bytes@.subrange(0, i as int), 16),
            forall|j: int| 0 <= j < i ==> is_hex_digit(#[trigger] bytes@[j]),
        decreases n - i,
    {
        let b = bytes[i];
        let digit = if 48 <= b && b <= 57 {
            b - 48
        } else if 97 <= b && b <= 102 {
            b - 87
        } else if 65 <= b && b <= 70 {
            b - 55
        } else {
            proof {
                assert(!is_hex_digit(bytes@[i as int]));
            }
            return None;
        };
        let d = digit as u64;
        if acc > (u64::MAX - d) / 16 {
            proof {
                lemma_num_step(bytes@, i as int, 16);
                vstd::arithmetic::div_mod::lemma_fundamental_div_mod(
                    (u64::MAX - d) as int,
                    16,
                );
                assert(radix_num(bytes@.subrange(0, i + 1), 16) > u64::MAX);
                lemma_radix_prefix_le(bytes@, i + 1, 16);
            }
            return None;
        }
        proof {
            lemma_num_step(bytes@, i as int, 16);
        }
        acc = acc * 16 + d;
        i = i + 1;
    }
    proof {
        assert(bytes@.subrange(0, n as int) =~= bytes@);
    }
    Some(acc)
}

/// Parse an unsigned decimal numeral, as the backend prints syscall
/// numbers. `Some` exactly when the string is nonempty, every byte is a
/// decimal digit, and the value fits in a machine word.
pub fn parse_dec_u64(s: &str) -> (r: Option<u64>)
    ensures
        r matches Some(v) ==> s.spec_bytes().len() >= 1 && (forall|i: int|
            0 <= i < s.spec_bytes().len() ==> is_dec_digit(#[trigger] s.spec_bytes()[i])) && v
            == radix_num(s.spec_bytes(), 10),
        r is None ==> s.spec_bytes().len() == 0 || (exists|i: int|
            0 <= i < s.spec_bytes().len() && !is_dec_digit(#[trigger] s.spec_bytes()[i]))
            || radix_num(s.spec_bytes(), 10) > u64::MAX,
{
    let bytes = s.as_bytes();
    let n = bytes.len();
    if n == 0 {
        return None;
    }
    let mut acc: u64 = 0;
    let mut i: usize = 0;
    while i < n
        invariant
            bytes@ == s.spec_bytes(),
            n == bytes@.len(),
            0 <= i <= n,
            acc == radix_num(bytes@.subrange(0, i as int), 10),
            forall|j: int| 0 <= j < i ==> is_dec_digit(#[trigger] bytes@[j]),
        decreases n - i,
    {
        let b = bytes[i];
        if b < 48 || b > 57 {
            proof {
                assert(!is_dec_digit(bytes@[i as int]));
            }
            return None;
        }
        let d = (b - 48) as u64;
        if acc > (u64::MAX - d) / 10 {
            proof {
                lemma_num_step(bytes@, i as int, 10);
                vstd::arithmetic::div_mod::lemma_fundamental_div_mod(
                    (u64::MAX - d) as int,
                    10,
                );
                assert(radix_num(bytes@.subrange(0, i + 1), 10) > u64::MAX);
                lemma_radix_prefix_le(bytes@, i + 1, 10);
            }
            return None;
        }
        proof {
            lemma_num_step(bytes@, i as int, 10);
        }
        acc = acc * 10 + d;
        i = i + 1;
    }
    proof {
        assert(bytes@.subrange(0, n as int) =~= bytes@);
    }
    Some(acc)
}

/// Reading one more digit multiplies by the base and adds the digit.
proof fn lemma_num_step(bs: Seq<u8>, i: int, base: nat)
    requires
        0 <= i < bs.len(),
    ensures
        radix_num(bs.subrange(0, i + 1), base) == radix_num(bs.subrange(0, i), base) * base
            + hex_digit_val(bs[i]),
{
    let p = bs.subrange(0, i + 1);
    assert(p.drop_last() =~= bs.subrange(0, i));
    assert(p.last() == bs[i]);
}

/// The string with its final character removed, as the backend's
/// newline-terminated plain replies are trimmed.
pub fn drop_last_char(s: &str) -> (r: String)
    ensures
        s@.len() == 0 ==> r@ =~= Seq::<char>::empty(),
        s@.len() >= 1 ==> r@ == s@.drop_last(),
{
    let n = s.unicode_len();
    if n == 0 {
        return String::new();
    }
    let t = s.substring_char(0, n - 1);
    proof {
        assert(t@ =~= s@.drop_last());
    }
    t.to_owned()
}

/// The fixed syscall calling convention the engine knows on its own:
/// 32-bit x86 passes syscall arguments in `ebx`, `ecx`, `edx`, `esi`,
/// `edi`, `ebp` and returns in `eax`. Every other architecture defers to
/// the backend's per-address convention, so `None` is returned for it.
pub fn syscall_cc(arch: &str, bits: u64) -> (r: Option<CallingConvention>)
    ensures
        r is Some <==> (arch@ == "x86"@ && bits == 32),
        r matches Some(cc) ==> cc.ret@ == "eax"@ && cc.args@.len() == 6 && cc.args@[0]@ == "ebx"@
            && cc.args@[1]@ == "ecx"@ && cc.args@[2]@ == "edx"@ && cc.args@[3]@ == "esi"@
            && cc.args@[4]@ == "edi"@ && cc.args@[5]@ == "ebp"@,
{
    if str_eq(arch, "x86") && bits == 32 {
        let mut args: Vec<String> = Vec::new();
        let s0: &str = "ebx";
        let s1: &str = "ecx";
        let s2: &str = "edx";
        let s3: &str = "esi";
        let s4: &str = "edi";
        let s5: &str = "ebp";
        args.push(s0.to_owned());
        args.push(s1.to_owned());
        args.push(s2.to_owned());
        args.push(s3.to_owned());
        args.push(s4.to_owned());
        args.push(s5.to_owned());
        let retname: &str = "eax";
        Some(CallingConvention { ret: retname.to_owned(), args })
    } else {
        None
    }
}

} // verus!
