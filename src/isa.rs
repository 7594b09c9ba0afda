use vstd::prelude::*;

use crate::memory::{load_byte, load_half, load_word, store_byte, store_half, store_word, TaskPoolSharedMemory};
use crate::memory::{lemma_aligned_offset, offset_of, vpn_of, PAGE_COUNT};
use crate::page::{lemma_word_bytes, word_at, with_word, PAGE_SIZE};
use crate::task::{Regs, TaskError, TaskMemory, VmState};

verus! {

/// Primary opcode: the top six bits.
pub open spec fn opcode(op: u32) -> u32 {
    op >> 26u32
}

/// Function field of a register-format instruction: the low six bits.
pub open spec fn funct(op: u32) -> u32 {
    op & 0x3fu32
}

/// Source register field.
pub open spec fn rs(op: u32) -> int {
    ((op >> 21u32) & 0x1fu32) as int
}

/// Target register field.
pub open spec fn rt(op: u32) -> int {
    ((op >> 16u32) & 0x1fu32) as int
}

/// Destination register field.
pub open spec fn rd(op: u32) -> int {
    ((op >> 11u32) & 0x1fu32) as int
}

/// Shift amount field.
pub open spec fn shamt(op: u32) -> u32 {
    (op >> 6u32) & 0x1fu32
}

/// The 16-bit immediate, zero-extended.
pub open spec fn imm_zext(op: u32) -> u32 {
    op & 0xffffu32
}

/// The 16-bit immediate, sign-extended.
pub open spec fn imm_sext(op: u32) -> u32 {
    if op & 0x8000u32 != 0 {
        (op & 0xffffu32) | 0xffff0000u32
    } else {
        op & 0xffffu32
    }
}

/// Id of a `syscall` or `break`: the 20 bits above the function field.
pub open spec fn call_id(op: u32) -> u32 {
    (op >> 6u32) & 0xfffffu32
}

/// Id of a conditional trap: the 10 bits above the function field.
pub open spec fn trap_id(op: u32) -> u32 {
    (op >> 6u32) & 0x3ffu32
}

/// Two's-complement addition of words.
pub open spec fn wadd(a: u32, b: u32) -> u32 {
    if a + b > u32::MAX {
        (a + b - 0x1_0000_0000) as u32
    } else {
        (a + b) as u32
    }
}

/// Two's-complement subtraction of words.
pub open spec fn wsub(a: u32, b: u32) -> u32 {
    if a - b < 0 {
        (a - b + 0x1_0000_0000) as u32
    } else {
        (a - b) as u32
    }
}

/// Signed value of a word.
pub open spec fn signed(a: u32) -> int {
    (a as i32) as int
}

/// Signed sum of two words, if it fits in 32 bits.
pub open spec fn add_checked(a: u32, b: u32) -> Option<u32> {
    let sum = signed(a) + signed(b);
    if i32::MIN <= sum <= i32::MAX {
        Some(sum as u32)
    } else {
        None
    }
}

/// Signed difference of two words, if it fits in 32 bits.
pub open spec fn sub_checked(a: u32, b: u32) -> Option<u32> {
    let diff = signed(a) - signed(b);
    if i32::MIN <= diff <= i32::MAX {
        Some(diff as u32)
    } else {
        None
    }
}

/// Quotient rounded toward zero.
pub open spec fn tdiv(x: int, d: int) -> int {
    if x == 0 {
        0
    } else if x > 0 && d > 0 {
        x / d
    } else if x < 0 && d < 0 {
        (x * -1) / (d * -1)
    } else if x < 0 {
        ((x * -1) / d) * -1
    } else {
        (x / (d * -1)) * -1
    }
}

/// Remainder of the quotient rounded toward zero: it has the sign of the dividend.
pub open spec fn trem(x: int, d: int) -> int {
    if x == 0 {
        0
    } else if x > 0 && d > 0 {
        x % d
    } else if x < 0 && d < 0 {
        ((x * -1) % (d * -1)) * -1
    } else if x < 0 {
        ((x * -1) % d) * -1
    } else {
        x % (d * -1)
    }
}

/// HI and LO of a 64-bit product given as a mathematical integer.
pub open spec fn split64(p: int) -> (u32, u32) {
    let u = p as u64;
    ((u / 0x1_0000_0000) as u32, u as u32)
}

/// Result of executing one instruction.
#[derive(Clone, Copy, Debug, PartialEq, Eq, Structural)]
pub enum Step {
    /// Go on with the next instruction.
    Next,
    /// A system call with this id was raised.
    Call(u32),
    /// A breakpoint with this id was raised.
    Break(u32),
    /// The instruction faulted.
    Fault(TaskError),
}

/// Effect of a register-format instruction (primary opcode 0). `s.pc`
/// already points past the instruction.
pub open spec fn exec_special_spec(s: Regs, op: u32) -> (Regs, Step) {
    let a = s.reg[rs(op)];
    let b = s.reg[rt(op)];
    let f = funct(op);
    if f == 0x0f {
        (s, Step::Next)
    } else if f == 0x20 {
        match add_checked(a, b) {
            Some(v) => (s.set(rd(op), v), Step::Next),
            None => (s, Step::Fault(TaskError::OverflowError(s.pc))),
        }
    } else if f == 0x21 {
        (s.set(rd(op), wadd(a, b)), Step::Next)
    } else if f == 0x24 {
        (s.set(rd(op), a & b), Step::Next)
    } else if f == 0x1a {
        if b == 0 {
            (s, Step::Fault(TaskError::DivByZeroError(s.pc)))
        } else {
            (
                Regs {
                    lo: tdiv(signed(a), signed(b)) as u32,
                    hi: trem(signed(a), signed(b)) as u32,
                    ..s
                },
                Step::Next,
            )
        }
    } else if f == 0x1b {
        if b == 0 {
            (s, Step::Fault(TaskError::DivByZeroError(s.pc)))
        } else {
            (Regs { lo: (a / b) as u32, hi: (a % b) as u32, ..s }, Step::Next)
        }
    } else if f == 0x18 {
        let (hi, lo) = split64(signed(a) * signed(b));
        (Regs { hi, lo, ..s }, Step::Next)
    } else if f == 0x19 {
        let (hi, lo) = split64(a as int * b as int);
        (Regs { hi, lo, ..s }, Step::Next)
    } else if f == 0x27 {
        (s.set(rd(op), !(a | b)), Step::Next)
    } else if f == 0x25 {
        (s.set(rd(op), a | b), Step::Next)
    } else if f == 0x26 {
        (s.set(rd(op), a ^ b), Step::Next)
    } else if f == 0x00 {
        (s.set(rd(op), b << shamt(op)), Step::Next)
    } else if f == 0x04 {
        (s.set(rd(op), b << (a & 0x1fu32)), Step::Next)
    } else if f == 0x03 {
        (s.set(rd(op), ((b as i32) >> shamt(op)) as u32), Step::Next)
    } else if f == 0x07 {
        (s.set(rd(op), ((b as i32) >> (a & 0x1fu32)) as u32), Step::Next)
    } else if f == 0x02 {
        (s.set(rd(op), b >> shamt(op)), Step::Next)
    } else if f == 0x06 {
        (s.set(rd(op), b >> (a & 0x1fu32)), Step::Next)
    } else if f == 0x22 {
        match sub_checked(a, b) {
            Some(v) => (s.set(rd(op), v), Step::Next),
            None => (s, Step::Fault(TaskError::OverflowError(s.pc))),
        }
    } else if f == 0x23 {
        (s.set(rd(op), wsub(a, b)), Step::Next)
    } else if f == 0x2a {
        (s.set(rd(op), if signed(a) < signed(b) { 1u32 } else { 0u32 }), Step::Next)
    } else if f == 0x2b {
        (s.set(rd(op), if a < b { 1u32 } else { 0u32 }), Step::Next)
    } else if f == 0x09 {
        let s1 = s.set(31, s.pc);
        (s1.jump(s1.reg[rs(op)]), Step::Next)
    } else if f == 0x08 {
        (s.jump(a), Step::Next)
    } else if f == 0x10 {
        (s.set(rd(op), s.hi), Step::Next)
    } else if f == 0x12 {
        (s.set(rd(op), s.lo), Step::Next)
    } else if f == 0x11 {
        (Regs { hi: a, ..s }, Step::Next)
    } else if f == 0x13 {
        (Regs { lo: a, ..s }, Step::Next)
    } else if f == 0x0c {
        (s, Step::Call(call_id(op)))
    } else if f == 0x0d {
        (s, Step::Break(call_id(op)))
    } else if f == 0x34 {
        (s, if a == b { Step::Call(trap_id(op)) } else { Step::Next })
    } else if f == 0x30 {
        (s, if signed(a) >= signed(b) { Step::Call(trap_id(op)) } else { Step::Next })
    } else if f == 0x31 {
        (s, if a >= b { Step::Call(trap_id(op)) } else { Step::Next })
    } else if f == 0x32 {
        (s, if signed(a) < signed(b) { Step::Call(trap_id(op)) } else { Step::Next })
    } else if f == 0x33 {
        (s, if a < b { Step::Call(trap_id(op)) } else { Step::Next })
    } else if f == 0x36 {
        (s, if a != b { Step::Call(trap_id(op)) } else { Step::Next })
    } else {
        (s, Step::Fault(TaskError::InvalidOperation(s.pc, op)))
    }
}

/// The fields of an instruction word, as executable values.
pub struct Fields {
    pub rs: usize,
    pub rt: usize,
    pub rd: usize,
    pub shamt: u32,
}

pub fn decode_fields(op: u32) -> (r: Fields)
    ensures
        r.rs == rs(op) && r.rs < 32,
        r.rt == rt(op) && r.rt < 32,
        r.rd == rd(op) && r.rd < 32,
        r.shamt == shamt(op) && r.shamt < 32,
{
    assert(((op >> 21u32) & 0x1fu32) < 32) by (bit_vector);
    assert(((op >> 16u32) & 0x1fu32) < 32) by (bit_vector);
    assert(((op >> 11u32) & 0x1fu32) < 32) by (bit_vector);
    assert(((op >> 6u32) & 0x1fu32) < 32) by (bit_vector);
    Fields {
        rs: ((op >> 21u32) & 0x1fu32) as usize,
        rt: ((op >> 16u32) & 0x1fu32) as usize,
        rd: ((op >> 11u32) & 0x1fu32) as usize,
        shamt: (op >> 6u32) & 0x1fu32,
    }
}

/// Splits a 64-bit product pattern into HI and LO.
fn split_u64(u: u64) -> (r: (u32, u32))
    ensures
        r == split64(u as int),
{
    assert((u >> 32u64) == u / 0x1_0000_0000) by (bit_vector);
    ((u >> 32u64) as u32, u as u32)
}

proof fn lemma_div_small(a: int, b: int)
    requires
        a > 0,
        b > 0,
    ensures
        0 <= a / b <= a,
        b >= 2 ==> 2 * (a / b) <= a,
        0 <= a % b < b,
{
    assert(0 <= a / b <= a) by (nonlinear_arith)
        requires
            a > 0,
            b > 0,
    ;
    assert(b >= 2 ==> 2 * (a / b) <= a) by (nonlinear_arith)
        requires
            a > 0,
            b > 0,
    ;
    assert(0 <= a % b < b) by (nonlinear_arith)
        requires
            a > 0,
            b > 0,
    ;
}

/// Signed division of words, rounded toward zero: (quotient, remainder).
fn div_signed(a: u32, b: u32) -> (r: (u32, u32))
    requires
        b != 0,
    ensures
        r == (tdiv(signed(a), signed(b)) as u32, trem(signed(a), signed(b)) as u32),
{
    let x = a as i32;
    let d = b as i32;
    assert(b != 0 ==> (b as i32) != 0) by (bit_vector);
    if x == i32::MIN && d == -1 {
        assert(signed(a) == -0x8000_0000 && signed(b) == -1);
        assert(0x8000_0000int / 1 == 0x8000_0000 && 0x8000_0000int % 1 == 0);
        (0x8000_0000u32, 0u32)
    } else {
        proof {
            let xi = x as int;
            let di = d as int;
            if xi > 0 && di > 0 {
                lemma_div_small(xi, di);
            } else if xi < 0 && di < 0 {
                lemma_div_small(-xi, -di);
            } else if xi < 0 && di > 0 {
                lemma_div_small(-xi, di);
            } else if xi > 0 && di < 0 {
                lemma_div_small(xi, -di);
            }
        }
        let q = x.checked_div(d).unwrap();
        let m = x.checked_rem(d).unwrap();
        (q as u32, m as u32)
    }
}

/// Executes a register-format instruction on `vm`, whose program counter
/// already points past it.
pub fn exec_special(vm: &mut VmState, op: u32) -> (r: Step)
    ensures
        (final(vm)@, r) == exec_special_spec(old(vm)@, op),
{
    let fld = decode_fields(op);
    let a = vm.reg[fld.rs];
    let b = vm.reg[fld.rt];
    let f = op & 0x3fu32;
    assert((a & 0x1fu32) < 32) by (bit_vector);
    if f == 0x0f {
        Step::Next
    } else if f == 0x20 {
        match (a as i32).checked_add(b as i32) {
            Some(v) => {
                vm.reg[fld.rd] = v as u32;
                Step::Next
            },
            None => Step::Fault(TaskError::OverflowError(vm.pc)),
        }
    } else if f == 0x21 {
        vm.reg[fld.rd] = a.wrapping_add(b);
        Step::Next
    } else if f == 0x24 {
        vm.reg[fld.rd] = a & b;
        Step::Next
    } else if f == 0x1a {
        if b == 0 {
            Step::Fault(TaskError::DivByZeroError(vm.pc))
        } else {
            let (q, m) = div_signed(a, b);
            vm.lo = q;
            vm.hi = m;
            Step::Next
        }
    } else if f == 0x1b {
        if b == 0 {
            Step::Fault(TaskError::DivByZeroError(vm.pc))
        } else {
            vm.lo = a / b;
            vm.hi = a % b;
            Step::Next
        }
    } else if f == 0x18 {
        let x = a as i32 as i64;
        let y = b as i32 as i64;
        assert(-0x8000_0000 <= x <= 0x7fff_ffff && -0x8000_0000 <= y <= 0x7fff_ffff
            ==> -0x4000_0000_0000_0000 <= x * y <= 0x4000_0000_0000_0000) by (nonlinear_arith);
        let p = x * y;
        let (hi, lo) = split_u64(p as u64);
        vm.hi = hi;
        vm.lo = lo;
        Step::Next
    } else if f == 0x19 {
        let x = a as u64;
        let y = b as u64;
        assert(x <= 0xffff_ffff && y <= 0xffff_ffff ==> x * y <= 0xffff_fffe_0000_0001) by (nonlinear_arith);
        let p = x * y;
        let (hi, lo) = split_u64(p);
        vm.hi = hi;
        vm.lo = lo;
        Step::Next
    } else if f == 0x27 {
        vm.reg[fld.rd] = !(a | b);
        Step::Next
    } else if f == 0x25 {
        vm.reg[fld.rd] = a | b;
        Step::Next
    } else if f == 0x26 {
        vm.reg[fld.rd] = a ^ b;
        Step::Next
    } else if f == 0x00 {
        vm.reg[fld.rd] = b << fld.shamt;
        Step::Next
    } else if f == 0x04 {
        vm.reg[fld.rd] = b << (a & 0x1fu32);
        Step::Next
    } else if f == 0x03 {
        vm.reg[fld.rd] = ((b as i32) >> fld.shamt) as u32;
        Step::Next
    } else if f == 0x07 {
        vm.reg[fld.rd] = ((b as i32) >> (a & 0x1fu32)) as u32;
        Step::Next
    } else if f == 0x02 {
        vm.reg[fld.rd] = b >> fld.shamt;
        Step::Next
    } else if f == 0x06 {
        vm.reg[fld.rd] = b >> (a & 0x1fu32);
        Step::Next
    } else if f == 0x22 {
        match (a as i32).checked_sub(b as i32) {
            Some(v) => {
                vm.reg[fld.rd] = v as u32;
                Step::Next
            },
            None => Step::Fault(TaskError::OverflowError(vm.pc)),
        }
    } else if f == 0x23 {
        vm.reg[fld.rd] = a.wrapping_sub(b);
        Step::Next
    } else if f == 0x2a {
        vm.reg[fld.rd] = if (a as i32) < (b as i32) { 1u32 } else { 0u32 };
        Step::Next
    } else if f == 0x2b {
        vm.reg[fld.rd] = if a < b { 1u32 } else { 0u32 };
        Step::Next
    } else if f == 0x09 {
        vm.reg[31] = vm.pc;
        vm.pc = vm.reg[fld.rs];
        Step::Next
    } else if f == 0x08 {
        vm.pc = a;
        Step::Next
    } else if f == 0x10 {
        vm.reg[fld.rd] = vm.hi;
        Step::Next
    } else if f == 0x12 {
        vm.reg[fld.rd] = vm.lo;
        Step::Next
    } else if f == 0x11 {
        vm.hi = a;
        Step::Next
    } else if f == 0x13 {
        vm.lo = a;
        Step::Next
    } else if f == 0x0c {
        Step::Call((op >> 6u32) & 0xfffffu32)
    } else if f == 0x0d {
        Step::Break((op >> 6u32) & 0xfffffu32)
    } else if f == 0x34 {
        if a == b { Step::Call((op >> 6u32) & 0x3ffu32) } else { Step::Next }
    } else if f == 0x30 {
        if (a as i32) >= (b as i32) { Step::Call((op >> 6u32) & 0x3ffu32) } else { Step::Next }
    } else if f == 0x31 {
        if a >= b { Step::Call((op >> 6u32) & 0x3ffu32) } else { Step::Next }
    } else if f == 0x32 {
        if (a as i32) < (b as i32) { Step::Call((op >> 6u32) & 0x3ffu32) } else { Step::Next }
    } else if f == 0x33 {
        if a < b { Step::Call((op >> 6u32) & 0x3ffu32) } else { Step::Next }
    } else if f == 0x36 {
        if a != b { Step::Call((op >> 6u32) & 0x3ffu32) } else { Step::Next }
    } else {
        Step::Fault(TaskError::InvalidOperation(vm.pc, op))
    }
}

/// Target of a taken branch: the immediate, shifted left by two, added to
/// the program counter that already points past the branch.
pub open spec fn branch_target(pc: u32, op: u32) -> u32 {
    wadd(pc, imm_sext(op) << 2u32)
}

/// Target of a jump: the upper four bits of the program counter with the
/// 26-bit index shifted left by two.
pub open spec fn jump_target(pc: u32, op: u32) -> u32 {
    (pc & 0xf000_0000u32) | ((op & 0x03ff_ffffu32) << 2u32)
}

/// The state after a conditional branch.
pub open spec fn branch(s: Regs, op: u32, taken: bool) -> Regs {
    if taken {
        s.jump(branch_target(s.pc, op))
    } else {
        s.jump(wadd(s.pc, 4))
    }
}

/// Effect of a jump, branch or immediate ALU instruction (a primary opcode
/// other than 0 that does not touch memory). `s.pc` already points past it.
pub open spec fn exec_immediate_spec(s: Regs, op: u32) -> (Regs, Step) {
    let a = s.reg[rs(op)];
    let b = s.reg[rt(op)];
    let c = opcode(op);
    if c == 0x02 {
        (s.jump(jump_target(s.pc, op)), Step::Next)
    } else if c == 0x03 {
        (s.set(31, s.pc).jump(jump_target(s.pc, op)), Step::Next)
    } else if c == 0x08 {
        match add_checked(a, imm_sext(op)) {
            Some(v) => (s.set(rt(op), v), Step::Next),
            None => (s, Step::Fault(TaskError::OverflowError(s.pc))),
        }
    } else if c == 0x09 {
        (s.set(rt(op), wadd(a, imm_sext(op))), Step::Next)
    } else if c == 0x0c {
        (s.set(rt(op), a & imm_zext(op)), Step::Next)
    } else if c == 0x0d {
        (s.set(rt(op), a | imm_zext(op)), Step::Next)
    } else if c == 0x0e {
        (s.set(rt(op), a ^ imm_zext(op)), Step::Next)
    } else if c == 0x0f {
        (s.set(rt(op), imm_zext(op) << 16u32), Step::Next)
    } else if c == 0x0a {
        (s.set(rt(op), if signed(a) < signed(imm_sext(op)) { 1u32 } else { 0u32 }), Step::Next)
    } else if c == 0x0b {
        (s.set(rt(op), if a < imm_sext(op) { 1u32 } else { 0u32 }), Step::Next)
    } else if c == 0x04 {
        (branch(s, op, a == b), Step::Next)
    } else if c == 0x05 {
        (branch(s, op, a != b), Step::Next)
    } else if c == 0x01 && rt(op) == 1 {
        (branch(s, op, signed(a) >= 0), Step::Next)
    } else if c == 0x01 && rt(op) == 0 {
        (branch(s, op, signed(a) < 0), Step::Next)
    } else if c == 0x07 {
        (branch(s, op, signed(a) > 0), Step::Next)
    } else if c == 0x06 {
        (branch(s, op, signed(a) <= 0), Step::Next)
    } else {
        (s, Step::Fault(TaskError::InvalidOperation(s.pc, op)))
    }
}

fn exec_branch(vm: &mut VmState, op: u32, taken: bool)
    ensures
        final(vm)@ == branch(old(vm)@, op, taken),
{
    if taken {
        let imm = sign_extend(op);
        vm.pc = vm.pc.wrapping_add(imm << 2u32);
    } else {
        vm.pc = vm.pc.wrapping_add(4);
    }
}

/// The sign-extended 16-bit immediate of `op`.
pub fn sign_extend(op: u32) -> (r: u32)
    ensures
        r == imm_sext(op),
{
    if op & 0x8000u32 != 0 {
        (op & 0xffffu32) | 0xffff0000u32
    } else {
        op & 0xffffu32
    }
}

/// Executes a jump, branch or immediate ALU instruction on `vm`, whose
/// program counter already points past it.
pub fn exec_immediate(vm: &mut VmState, op: u32) -> (r: Step)
    ensures
        (final(vm)@, r) == exec_immediate_spec(old(vm)@, op),
{
    let fld = decode_fields(op);
    let a = vm.reg[fld.rs];
    let b = vm.reg[fld.rt];
    let c = op >> 26u32;
    let se = sign_extend(op);
    let ze = op & 0xffffu32;
    if c == 0x02 {
        vm.pc = (vm.pc & 0xf000_0000u32) | ((op & 0x03ff_ffffu32) << 2u32);
        Step::Next
    } else if c == 0x03 {
        let pc = vm.pc;
        vm.reg[31] = pc;
        vm.pc = (pc & 0xf000_0000u32) | ((op & 0x03ff_ffffu32) << 2u32);
        Step::Next
    } else if c == 0x08 {
        match (a as i32).checked_add(se as i32) {
            Some(v) => {
                vm.reg[fld.rt] = v as u32;
                Step::Next
            },
            None => Step::Fault(TaskError::OverflowError(vm.pc)),
        }
    } else if c == 0x09 {
        vm.reg[fld.rt] = a.wrapping_add(se);
        Step::Next
    } else if c == 0x0c {
        vm.reg[fld.rt] = a & ze;
        Step::Next
    } else if c == 0x0d {
        vm.reg[fld.rt] = a | ze;
        Step::Next
    } else if c == 0x0e {
        vm.reg[fld.rt] = a ^ ze;
        Step::Next
    } else if c == 0x0f {
        vm.reg[fld.rt] = ze << 16u32;
        Step::Next
    } else if c == 0x0a {
        vm.reg[fld.rt] = if (a as i32) < (se as i32) { 1u32 } else { 0u32 };
        Step::Next
    } else if c == 0x0b {
        vm.reg[fld.rt] = if a < se { 1u32 } else { 0u32 };
        Step::Next
    } else if c == 0x04 {
        exec_branch(vm, op, a == b);
        Step::Next
    } else if c == 0x05 {
        exec_branch(vm, op, a != b);
        Step::Next
    } else if c == 0x01 && fld.rt == 1 {
        exec_branch(vm, op, (a as i32) >= 0);
        Step::Next
    } else if c == 0x01 && fld.rt == 0 {
        exec_branch(vm, op, (a as i32) < 0);
        Step::Next
    } else if c == 0x07 {
        exec_branch(vm, op, (a as i32) > 0);
        Step::Next
    } else if c == 0x06 {
        exec_branch(vm, op, (a as i32) <= 0);
        Step::Next
    } else {
        Step::Fault(TaskError::InvalidOperation(vm.pc, op))
    }
}

/// Memory contents and reservation flag, as a mathematical value.
pub ghost struct MemState {
    pub pages: Seq<Seq<u8>>,
    pub ll: bool,
}

/// Effective address of a load or store: base register plus sign-extended offset.
pub open spec fn effective_address(s: Regs, op: u32) -> u32 {
    wadd(s.reg[rs(op)], imm_sext(op))
}

/// The primary opcodes of the loads and stores.
pub open spec fn is_memory_opcode(c: u32) -> bool {
    c == 0x20 || c == 0x21 || c == 0x22 || c == 0x23 || c == 0x24 || c == 0x25 || c == 0x26 || c
        == 0x28 || c == 0x29 || c == 0x2a || c == 0x2b || c == 0x2e || c == 0x30 || c == 0x38
}

/// Fault for an access to the unmapped address `x`.
pub open spec fn unmapped(s: Regs, x: u32) -> Step {
    Step::Fault(TaskError::MemoryDoesNotExistError(x, s.pc))
}

/// Fault for a misaligned access of `width` bytes.
pub open spec fn misaligned(s: Regs, width: u8) -> Step {
    Step::Fault(TaskError::MemoryAllignmentError(width, s.pc))
}

/// Effect of a load or store instruction on registers, memory and the
/// reservation flag. `slots` maps virtual page numbers to pages.
pub open spec fn exec_memory_spec(s: Regs, m: MemState, slots: Seq<Option<usize>>, op: u32) -> (Regs, MemState, Step) {
    let addr = effective_address(s, op);
    let t = rt(op);
    let v = s.reg[t];
    let c = opcode(op);
    if c == 0x22 {
        match load_byte(m.pages, slots, addr) {
            None => (s, m, unmapped(s, addr)),
            Some(b0) => {
                let s1 = s.set(t, (v & 0x00ff_ffffu32) | ((b0 as u32) << 24u32));
                match load_byte(m.pages, slots, wadd(addr, 1)) {
                    None => (s1, m, unmapped(s, wadd(addr, 1))),
                    Some(b1) => (s1.set(t, (s1.reg[t] & 0xff00_ffffu32) | ((b1 as u32) << 16u32)), m, Step::Next),
                }
            },
        }
    } else if c == 0x26 {
        match load_byte(m.pages, slots, addr) {
            None => (s, m, unmapped(s, addr)),
            Some(b0) => {
                let s1 = s.set(t, (v & 0xffff_ff00u32) | (b0 as u32));
                match load_byte(m.pages, slots, wsub(addr, 1)) {
                    None => (s1, m, unmapped(s, wsub(addr, 1))),
                    Some(b1) => (s1.set(t, (s1.reg[t] & 0xffff_00ffu32) | ((b1 as u32) << 8u32)), m, Step::Next),
                }
            },
        }
    } else if c == 0x2a {
        match store_byte(m.pages, slots, addr, (v >> 24u32) as u8) {
            None => (s, MemState { pages: m.pages, ll: false }, unmapped(s, addr)),
            Some(p1) => match store_byte(p1, slots, wadd(addr, 1), (v >> 16u32) as u8) {
                None => (s, MemState { pages: p1, ll: false }, unmapped(s, wadd(addr, 1))),
                Some(p2) => (s, MemState { pages: p2, ll: false }, Step::Next),
            },
        }
    } else if c == 0x2e {
        match store_byte(m.pages, slots, addr, v as u8) {
            None => (s, MemState { pages: m.pages, ll: false }, unmapped(s, addr)),
            Some(p1) => match store_byte(p1, slots, wsub(addr, 1), (v >> 8u32) as u8) {
                None => (s, MemState { pages: p1, ll: false }, unmapped(s, wsub(addr, 1))),
                Some(p2) => (s, MemState { pages: p2, ll: false }, Step::Next),
            },
        }
    } else if c == 0x20 || c == 0x24 {
        match load_byte(m.pages, slots, addr) {
            None => (s, m, unmapped(s, addr)),
            Some(b) => (s.set(t, if c == 0x20 { (b as i8) as u32 } else { b as u32 }), m, Step::Next),
        }
    } else if c == 0x21 || c == 0x25 {
        if addr % 2 != 0 {
            (s, m, misaligned(s, 2))
        } else {
            match load_half(m.pages, slots, addr) {
                None => (s, m, unmapped(s, addr)),
                Some(h) => (s.set(t, if c == 0x21 { (h as i16) as u32 } else { h as u32 }), m, Step::Next),
            }
        }
    } else if c == 0x23 || c == 0x30 {
        if addr % 4 != 0 {
            (s, m, misaligned(s, 4))
        } else {
            let m1 = if c == 0x30 { MemState { ll: true, ..m } } else { m };
            match load_word(m.pages, slots, addr) {
                None => (s, m1, unmapped(s, addr)),
                Some(w) => (s.set(t, w), m1, Step::Next),
            }
        }
    } else if c == 0x38 {
        if addr % 4 != 0 {
            (s.set(t, 0), m, misaligned(s, 4))
        } else if m.ll {
            match store_word(m.pages, slots, addr, v) {
                None => (s, m, unmapped(s, addr)),
                Some(p) => (s.set(t, 1), MemState { pages: p, ll: false }, Step::Next),
            }
        } else {
            (s.set(t, 0), MemState { ll: false, ..m }, Step::Next)
        }
    } else if c == 0x28 {
        match store_byte(m.pages, slots, addr, v as u8) {
            None => (s, MemState { ll: false, ..m }, unmapped(s, addr)),
            Some(p) => (s, MemState { pages: p, ll: false }, Step::Next),
        }
    } else if c == 0x29 {
        if addr % 2 != 0 {
            (s, m, misaligned(s, 2))
        } else {
            match store_half(m.pages, slots, addr, v as u16) {
                None => (s, MemState { ll: false, ..m }, unmapped(s, addr)),
                Some(p) => (s, MemState { pages: p, ll: false }, Step::Next),
            }
        }
    } else {
        if addr % 4 != 0 {
            (s, m, misaligned(s, 4))
        } else {
            match store_word(m.pages, slots, addr, v) {
                None => (s, MemState { ll: false, ..m }, unmapped(s, addr)),
                Some(p) => (s, MemState { pages: p, ll: false }, Step::Next),
            }
        }
    }
}

/// Memory state of a store and view.
pub open spec fn mem_state(store: TaskPoolSharedMemory, mem: TaskMemory) -> MemState {
    MemState { pages: store.contents(), ll: mem.ll() }
}

/// Executes a load or store instruction (`is_memory_opcode`) on `vm`, whose
/// program counter already points past it.
pub fn exec_memory(vm: &mut VmState, store: &mut TaskPoolSharedMemory, mem: &mut TaskMemory, op: u32) -> (r: Step)
    requires
        old(store).wf(),
        old(mem).fits(old(store).contents().len()),
        is_memory_opcode(opcode(op)),
    ensures
        final(store).wf(),
        final(store).owners() == old(store).owners(),
        final(mem).slots() == old(mem).slots(),
        (final(vm)@, mem_state(*final(store), *final(mem)), r) == exec_memory_spec(old(vm)@, mem_state(*old(store), *old(mem)), old(mem).slots(), op),
{
    let fld = decode_fields(op);
    let t = fld.rt;
    let v = vm.reg[t];
    let addr = vm.reg[fld.rs].wrapping_add(sign_extend(op));
    let c = op >> 26u32;
    let pc = vm.pc;
    if c == 0x22 {
        match mem.read_u8(store, addr) {
            None => Step::Fault(TaskError::MemoryDoesNotExistError(addr, pc)),
            Some(b0) => {
                vm.reg[t] = (v & 0x00ff_ffffu32) | ((b0 as u32) << 24u32);
                let a1 = addr.wrapping_add(1);
                match mem.read_u8(store, a1) {
                    None => Step::Fault(TaskError::MemoryDoesNotExistError(a1, pc)),
                    Some(b1) => {
                        let cur = vm.reg[t];
                        vm.reg[t] = (cur & 0xff00_ffffu32) | ((b1 as u32) << 16u32);
                        Step::Next
                    },
                }
            },
        }
    } else if c == 0x26 {
        match mem.read_u8(store, addr) {
            None => Step::Fault(TaskError::MemoryDoesNotExistError(addr, pc)),
            Some(b0) => {
                vm.reg[t] = (v & 0xffff_ff00u32) | (b0 as u32);
                let a1 = addr.wrapping_sub(1);
                match mem.read_u8(store, a1) {
                    None => Step::Fault(TaskError::MemoryDoesNotExistError(a1, pc)),
                    Some(b1) => {
                        let cur = vm.reg[t];
                        vm.reg[t] = (cur & 0xffff_00ffu32) | ((b1 as u32) << 8u32);
                        Step::Next
                    },
                }
            },
        }
    } else if c == 0x2a {
        mem.set_ll_bit(false);
        if !mem.write_u8(store, addr, (v >> 24u32) as u8) {
            Step::Fault(TaskError::MemoryDoesNotExistError(addr, pc))
        } else {
            let a1 = addr.wrapping_add(1);
            if !mem.write_u8(store, a1, (v >> 16u32) as u8) {
                Step::Fault(TaskError::MemoryDoesNotExistError(a1, pc))
            } else {
                Step::Next
            }
        }
    } else if c == 0x2e {
        mem.set_ll_bit(false);
        if !mem.write_u8(store, addr, v as u8) {
            Step::Fault(TaskError::MemoryDoesNotExistError(addr, pc))
        } else {
            let a1 = addr.wrapping_sub(1);
            if !mem.write_u8(store, a1, (v >> 8u32) as u8) {
                Step::Fault(TaskError::MemoryDoesNotExistError(a1, pc))
            } else {
                Step::Next
            }
        }
    } else if c == 0x20 || c == 0x24 {
        match mem.read_u8(store, addr) {
            None => Step::Fault(TaskError::MemoryDoesNotExistError(addr, pc)),
            Some(b) => {
                vm.reg[t] = if c == 0x20 { (b as i8) as u32 } else { b as u32 };
                Step::Next
            },
        }
    } else if c == 0x21 || c == 0x25 {
        if addr & 1u32 != 0 {
            assert((addr & 1u32 != 0) == (addr % 2 != 0)) by (bit_vector);
            Step::Fault(TaskError::MemoryAllignmentError(2, pc))
        } else {
            assert((addr & 1u32 == 0) == (addr % 2 == 0)) by (bit_vector);
            match mem.read_u16(store, addr) {
                None => Step::Fault(TaskError::MemoryDoesNotExistError(addr, pc)),
                Some(h) => {
                    vm.reg[t] = if c == 0x21 { (h as i16) as u32 } else { h as u32 };
                    Step::Next
                },
            }
        }
    } else if c == 0x23 || c == 0x30 {
        if addr & 3u32 != 0 {
            assert((addr & 3u32 != 0) == (addr % 4 != 0)) by (bit_vector);
            Step::Fault(TaskError::MemoryAllignmentError(4, pc))
        } else {
            assert((addr & 3u32 == 0) == (addr % 4 == 0)) by (bit_vector);
            if c == 0x30 {
                mem.set_ll_bit(true);
            }
            match mem.read_u32(store, addr) {
                None => Step::Fault(TaskError::MemoryDoesNotExistError(addr, pc)),
                Some(w) => {
                    vm.reg[t] = w;
                    Step::Next
                },
            }
        }
    } else if c == 0x38 {
        if addr & 3u32 != 0 {
            assert((addr & 3u32 != 0) == (addr % 4 != 0)) by (bit_vector);
            vm.reg[t] = 0;
            Step::Fault(TaskError::MemoryAllignmentError(4, pc))
        } else {
            assert((addr & 3u32 == 0) == (addr % 4 == 0)) by (bit_vector);
            if mem.ll_bit() {
                if !mem.write_u32(store, addr, v) {
                    Step::Fault(TaskError::MemoryDoesNotExistError(addr, pc))
                } else {
                    vm.reg[t] = 1;
                    mem.set_ll_bit(false);
                    Step::Next
                }
            } else {
                vm.reg[t] = 0;
                mem.set_ll_bit(false);
                Step::Next
            }
        }
    } else if c == 0x28 {
        mem.set_ll_bit(false);
        if !mem.write_u8(store, addr, v as u8) {
            Step::Fault(TaskError::MemoryDoesNotExistError(addr, pc))
        } else {
            Step::Next
        }
    } else if c == 0x29 {
        if addr & 1u32 != 0 {
            assert((addr & 1u32 != 0) == (addr % 2 != 0)) by (bit_vector);
            Step::Fault(TaskError::MemoryAllignmentError(2, pc))
        } else {
            assert((addr & 1u32 == 0) == (addr % 2 == 0)) by (bit_vector);
            mem.set_ll_bit(false);
            if !mem.write_u16(store, addr, v as u16) {
                Step::Fault(TaskError::MemoryDoesNotExistError(addr, pc))
            } else {
                Step::Next
            }
        }
    } else {
        if addr & 3u32 != 0 {
            assert((addr & 3u32 != 0) == (addr % 4 != 0)) by (bit_vector);
            Step::Fault(TaskError::MemoryAllignmentError(4, pc))
        } else {
            assert((addr & 3u32 == 0) == (addr % 4 == 0)) by (bit_vector);
            mem.set_ll_bit(false);
            if !mem.write_u32(store, addr, v) {
                Step::Fault(TaskError::MemoryDoesNotExistError(addr, pc))
            } else {
                Step::Next
            }
        }
    }
}

/// Signed addition (`add`) faults with `OverflowError` exactly when the
/// mathematical sum of the operands leaves the 32-bit signed range, and
/// otherwise writes their two's-complement sum.
pub proof fn lemma_add_overflow(s: Regs, op: u32)
    requires
        opcode(op) == 0,
        funct(op) == 0x20,
    ensures
        ({
            let a = s.reg[rs(op)];
            let b = s.reg[rt(op)];
            let sum = signed(a) + signed(b);
            let (r, st) = exec_special_spec(s, op);
            &&& (sum < i32::MIN || sum > i32::MAX) ==> st == Step::Fault(TaskError::OverflowError(s.pc)) && r == s
            &&& (i32::MIN <= sum <= i32::MAX) ==> st == Step::Next && r == s.set(rd(op), wadd(a, b))
        }),
{
    let a = s.reg[rs(op)];
    let b = s.reg[rt(op)];
    assert((((a as i32) as int + (b as i32) as int) as u32) == (if a + b > u32::MAX {
        (a + b - 0x1_0000_0000) as u32
    } else {
        (a + b) as u32
    })) by (bit_vector);
}

/// Signed division (`div`) faults with `DivByZeroError` on a zero divisor.
/// Otherwise LO gets the quotient rounded toward zero and HI the remainder:
/// dividend = divisor * quotient + remainder, the remainder is zero or has
/// the dividend's sign, and it is smaller than the divisor in size.
pub proof fn lemma_div(s: Regs, op: u32)
    requires
        opcode(op) == 0,
        funct(op) == 0x1a,
    ensures
        ({
            let a = s.reg[rs(op)];
            let b = s.reg[rt(op)];
            let (x, d) = (signed(a), signed(b));
            let (r, st) = exec_special_spec(s, op);
            &&& b == 0 ==> st == Step::Fault(TaskError::DivByZeroError(s.pc)) && r == s
            &&& b != 0 ==> {
                &&& st == Step::Next
                &&& r == Regs { lo: tdiv(x, d) as u32, hi: trem(x, d) as u32, ..s }
                &&& x == d * tdiv(x, d) + trem(x, d)
                &&& trem(x, d) == 0 || (trem(x, d) < 0 <==> x < 0)
                &&& -abs(d) < trem(x, d) < abs(d)
            }
        }),
{
    let a = s.reg[rs(op)];
    let b = s.reg[rt(op)];
    let x = signed(a);
    let d = signed(b);
    assert(b != 0 ==> (b as i32) != 0) by (bit_vector);
    if b != 0 {
        lemma_tdiv_trem(x, d);
    }
}

/// The absolute value.
pub open spec fn abs(x: int) -> int {
    if x < 0 { -x } else { x }
}

/// Quotient and remainder rounded toward zero recompose the dividend, and
/// the remainder has the dividend's sign and is smaller than the divisor.
pub proof fn lemma_tdiv_trem(x: int, d: int)
    requires
        d != 0,
    ensures
        x == d * tdiv(x, d) + trem(x, d),
        trem(x, d) == 0 || (trem(x, d) < 0 <==> x < 0),
        -abs(d) < trem(x, d) < abs(d),
{
    if x == 0 {
    } else if x > 0 && d > 0 {
        vstd::arithmetic::div_mod::lemma_fundamental_div_mod(x, d);
    } else if x < 0 && d < 0 {
        vstd::arithmetic::div_mod::lemma_fundamental_div_mod(-x, -d);
        let q = (-x) / (-d);
        assert(tdiv(x, d) == q);
        assert(d * q == -((-d) * q)) by (nonlinear_arith);
    } else if x < 0 {
        vstd::arithmetic::div_mod::lemma_fundamental_div_mod(-x, d);
        let q = (-x) / d;
        assert(tdiv(x, d) == -q);
        assert(d * (-q) == -(d * q)) by (nonlinear_arith);
    } else {
        vstd::arithmetic::div_mod::lemma_fundamental_div_mod(x, -d);
        let q = x / (-d);
        assert(tdiv(x, d) == -q);
        assert(d * (-q) == (-d) * q) by (nonlinear_arith);
    }
}

/// Unsigned division (`divu`) faults with `DivByZeroError` on a zero
/// divisor; otherwise LO gets the quotient and HI the remainder.
pub proof fn lemma_divu(s: Regs, op: u32)
    requires
        opcode(op) == 0,
        funct(op) == 0x1b,
    ensures
        ({
            let a = s.reg[rs(op)];
            let b = s.reg[rt(op)];
            let (r, st) = exec_special_spec(s, op);
            &&& b == 0 ==> st == Step::Fault(TaskError::DivByZeroError(s.pc)) && r == s
            &&& b != 0 ==> st == Step::Next && r == Regs { lo: (a / b) as u32, hi: (a % b) as u32, ..s }
        }),
{
}

/// Register fields name one of the 32 registers.
pub proof fn lemma_fields(op: u32)
    ensures
        0 <= rs(op) < 32,
        0 <= rt(op) < 32,
        0 <= rd(op) < 32,
{
    assert(((op >> 21u32) & 0x1fu32) < 32) by (bit_vector);
    assert(((op >> 16u32) & 0x1fu32) < 32) by (bit_vector);
    assert(((op >> 11u32) & 0x1fu32) < 32) by (bit_vector);
}

/// The memory of a view is well formed: it covers the whole address space
/// and maps only full pages.
pub open spec fn view_ok(m: MemState, slots: Seq<Option<usize>>) -> bool {
    &&& slots.len() == PAGE_COUNT
    &&& forall|v: int| 0 <= v < PAGE_COUNT ==> (#[trigger] slots[v] matches Some(p) ==> p < m.pages.len() && m.pages[p as int].len() == PAGE_SIZE)
}

/// A word stored with `sw` and then loaded with `lw` from the same aligned,
/// mapped address comes back unchanged.
pub proof fn lemma_store_load_word(s: Regs, m: MemState, slots: Seq<Option<usize>>, sw: u32, lw: u32)
    requires
        opcode(sw) == 0x2b,
        opcode(lw) == 0x23,
        view_ok(m, slots),
        effective_address(s, sw) == effective_address(s, lw),
        effective_address(s, sw) % 4 == 0,
        slots[vpn_of(effective_address(s, sw))] is Some,
        s.reg.len() == 32,
    ensures
        ({
            let (s1, m1, st1) = exec_memory_spec(s, m, slots, sw);
            let (s2, m2, st2) = exec_memory_spec(s1, m1, slots, lw);
            &&& st1 == Step::Next
            &&& s1 == s
            &&& st2 == Step::Next
            &&& s2.reg[rt(lw)] == s.reg[rt(sw)]
        }),
{
    let addr = effective_address(s, sw);
    lemma_fields(sw);
    lemma_fields(lw);
    lemma_aligned_offset(addr, 4);
    let p = slots[vpn_of(addr)]->Some_0;
    assert(0 <= vpn_of(addr) < PAGE_COUNT);
    assert(p < m.pages.len() && m.pages[p as int].len() == PAGE_SIZE);
    lemma_word_round_trip(m.pages[p as int], offset_of(addr), s.reg[rt(sw)]);
}

/// Reading back a word just written at an in-page offset gives it back.
pub proof fn lemma_word_round_trip(b: Seq<u8>, off: int, v: u32)
    requires
        0 <= off,
        off + 4 <= b.len(),
    ensures
        word_at(with_word(b, off, v), off) == v,
{
    lemma_word_bytes(v);
}

/// `ll` followed by `sc` at the same aligned, mapped address succeeds: the
/// store-conditional writes its register's value, sets the register to 1,
/// and clears the reservation.
pub proof fn lemma_ll_then_sc(s: Regs, m: MemState, slots: Seq<Option<usize>>, ll: u32, sc: u32)
    requires
        opcode(ll) == 0x30,
        opcode(sc) == 0x38,
        view_ok(m, slots),
        effective_address(s, ll) % 4 == 0,
        slots[vpn_of(effective_address(s, ll))] is Some,
        s.reg.len() == 32,
    ensures
        ({
            let (s1, m1, st1) = exec_memory_spec(s, m, slots, ll);
            let (s2, m2, st2) = exec_memory_spec(s1, m1, slots, sc);
            effective_address(s1, sc) == effective_address(s, ll) ==> {
                &&& st1 == Step::Next
                &&& m1.ll
                &&& st2 == Step::Next
                &&& s2.reg[rt(sc)] == 1
                &&& Some(m2.pages) == store_word(m.pages, slots, effective_address(s, ll), s1.reg[rt(sc)])
                &&& !m2.ll
            }
        }),
{
    let addr = effective_address(s, ll);
    lemma_fields(ll);
    lemma_fields(sc);
    assert(0 <= vpn_of(addr) < PAGE_COUNT);
}

/// A store-conditional when the reservation is clear (no `ll` since, or any
/// store since) writes nothing, sets its register to 0 and leaves the
/// reservation clear.
pub proof fn lemma_sc_without_reservation(s: Regs, m: MemState, slots: Seq<Option<usize>>, sc: u32)
    requires
        opcode(sc) == 0x38,
        !m.ll,
        effective_address(s, sc) % 4 == 0,
    ensures
        ({
            let (s1, m1, st1) = exec_memory_spec(s, m, slots, sc);
            &&& st1 == Step::Next
            &&& s1 == s.set(rt(sc), 0u32)
            &&& m1.pages == m.pages
            &&& !m1.ll
        }),
{
}

/// Every store instruction, to any address, clears the reservation; so a
/// store-conditional after it writes nothing and yields 0.
pub proof fn lemma_store_clears_reservation(s: Regs, m: MemState, slots: Seq<Option<usize>>, st: u32, sc: u32)
    requires
        opcode(st) == 0x28 || opcode(st) == 0x29 || opcode(st) == 0x2b || opcode(st) == 0x2a || opcode(st) == 0x2e,
        opcode(sc) == 0x38,
        s.reg.len() == 32,
    ensures
        ({
            let (s1, m1, st1) = exec_memory_spec(s, m, slots, st);
            st1 == Step::Next ==> {
                &&& !m1.ll
                &&& effective_address(s1, sc) % 4 == 0 ==> {
                    let (s2, m2, st2) = exec_memory_spec(s1, m1, slots, sc);
                    &&& st2 == Step::Next
                    &&& s2.reg[rt(sc)] == 0
                    &&& m2.pages == m1.pages
                }
            }
        }),
{
    lemma_fields(st);
    lemma_fields(sc);
    let (s1, m1, st1) = exec_memory_spec(s, m, slots, st);
    if st1 == Step::Next {
        assert(!m1.ll);
        if effective_address(s1, sc) % 4 == 0 {
            lemma_sc_without_reservation(s1, m1, slots, sc);
        }
    }
}

/// Halfword accesses at an odd address and word accesses at an address that
/// is not a multiple of four fault with `MemoryAllignmentError` of that width,
/// leaving memory and reservation untouched.
pub proof fn lemma_misaligned(s: Regs, m: MemState, slots: Seq<Option<usize>>, op: u32)
    ensures
        ({
            let addr = effective_address(s, op);
            let c = opcode(op);
            let (s1, m1, st1) = exec_memory_spec(s, m, slots, op);
            &&& (c == 0x21 || c == 0x25 || c == 0x29) && addr % 2 != 0 ==> st1 == misaligned(s, 2) && m1 == m && s1 == s
            &&& (c == 0x23 || c == 0x30 || c == 0x2b) && addr % 4 != 0 ==> st1 == misaligned(s, 4) && m1 == m && s1 == s
            &&& c == 0x38 && addr % 4 != 0 ==> st1 == misaligned(s, 4) && m1 == m
        }),
{
}

} // verus!
