use vm_core::ids::ProcessId;
use vm_core::isa::Step;
use vm_core::memory::TaskPoolSharedMemory;
use vm_core::task::{Task, TaskError, TaskMemory};

/// A task with a code page at virtual page 0 holding `code`, and a data page at virtual page 1.
fn machine(code: &[u32]) -> (Task, TaskPoolSharedMemory, TaskMemory) {
    let mut store = TaskPoolSharedMemory::new();
    let code_page = store.new_page();
    let data_page = store.new_page();
    for (i, w) in code.iter().enumerate() {
        store.write_u32(code_page.raw(), (i * 4) as u16, *w);
    }
    let mut task = Task::new(ProcessId::from_raw(1));
    task.memory_mapping.mapping.push((code_page, 0));
    task.memory_mapping.mapping.push((data_page, 1));
    let mut view = TaskMemory::new();
    view.map_pages(&task.memory_mapping);
    (task, store, view)
}

fn r_type(rs: u32, rt: u32, rd: u32, funct: u32) -> u32 {
    (rs << 21) | (rt << 16) | (rd << 11) | funct
}

fn i_type(op: u32, rs: u32, rt: u32, imm: u16) -> u32 {
    (op << 26) | (rs << 21) | (rt << 16) | imm as u32
}

const DATA: u32 = 0x1_0000;

#[test]
fn add_overflow_faults() {
    let (mut t, mut s, mut v) = machine(&[r_type(1, 2, 3, 0x20)]);
    t.vm_state.reg[1] = 0x7fff_ffff;
    t.vm_state.reg[2] = 1;
    assert_eq!(t.step(&mut s, &mut v), Step::Fault(TaskError::OverflowError(4)));
    assert_eq!(t.vm_state.reg[3], 0);
}

#[test]
fn add_negative_overflow_faults() {
    let (mut t, mut s, mut v) = machine(&[r_type(1, 2, 3, 0x20)]);
    t.vm_state.reg[1] = 0x8000_0000;
    t.vm_state.reg[2] = (-1i32) as u32;
    assert_eq!(t.step(&mut s, &mut v), Step::Fault(TaskError::OverflowError(4)));
}

#[test]
fn add_without_overflow_wraps_bits() {
    let (mut t, mut s, mut v) = machine(&[r_type(1, 2, 3, 0x20)]);
    t.vm_state.reg[1] = 5;
    t.vm_state.reg[2] = (-3i32) as u32;
    assert_eq!(t.step(&mut s, &mut v), Step::Next);
    assert_eq!(t.vm_state.reg[3], 2);
    assert_eq!(t.vm_state.pc, 4);
}

#[test]
fn addu_wraps() {
    let (mut t, mut s, mut v) = machine(&[r_type(1, 2, 3, 0x21)]);
    t.vm_state.reg[1] = 0xffff_ffff;
    t.vm_state.reg[2] = 2;
    assert_eq!(t.step(&mut s, &mut v), Step::Next);
    assert_eq!(t.vm_state.reg[3], 1);
}

#[test]
fn sub_overflow_faults() {
    let (mut t, mut s, mut v) = machine(&[r_type(1, 2, 3, 0x22)]);
    t.vm_state.reg[1] = 0x8000_0000;
    t.vm_state.reg[2] = 1;
    assert_eq!(t.step(&mut s, &mut v), Step::Fault(TaskError::OverflowError(4)));
}

#[test]
fn addi_overflow_faults() {
    let (mut t, mut s, mut v) = machine(&[i_type(0x08, 1, 2, 1)]);
    t.vm_state.reg[1] = 0x7fff_ffff;
    assert_eq!(t.step(&mut s, &mut v), Step::Fault(TaskError::OverflowError(4)));
}

#[test]
fn addiu_sign_extends() {
    let (mut t, mut s, mut v) = machine(&[i_type(0x09, 1, 2, 0xffff)]);
    t.vm_state.reg[1] = 10;
    assert_eq!(t.step(&mut s, &mut v), Step::Next);
    assert_eq!(t.vm_state.reg[2], 9);
}

#[test]
fn div_by_zero_faults() {
    let (mut t, mut s, mut v) = machine(&[r_type(1, 2, 0, 0x1a)]);
    t.vm_state.reg[1] = 7;
    t.vm_state.reg[2] = 0;
    assert_eq!(t.step(&mut s, &mut v), Step::Fault(TaskError::DivByZeroError(4)));
}

#[test]
fn divu_by_zero_faults() {
    let (mut t, mut s, mut v) = machine(&[r_type(1, 2, 0, 0x1b)]);
    t.vm_state.reg[1] = 7;
    assert_eq!(t.step(&mut s, &mut v), Step::Fault(TaskError::DivByZeroError(4)));
}

#[test]
fn div_truncates_toward_zero() {
    let (mut t, mut s, mut v) = machine(&[r_type(1, 2, 0, 0x1a)]);
    t.vm_state.reg[1] = (-7i32) as u32;
    t.vm_state.reg[2] = 2;
    assert_eq!(t.step(&mut s, &mut v), Step::Next);
    assert_eq!(t.vm_state.lo as i32, -3);
    assert_eq!(t.vm_state.hi as i32, -1);
}

#[test]
fn div_negative_divisor() {
    let (mut t, mut s, mut v) = machine(&[r_type(1, 2, 0, 0x1a)]);
    t.vm_state.reg[1] = 7;
    t.vm_state.reg[2] = (-2i32) as u32;
    assert_eq!(t.step(&mut s, &mut v), Step::Next);
    assert_eq!(t.vm_state.lo as i32, -3);
    assert_eq!(t.vm_state.hi as i32, 1);
}

#[test]
fn div_min_by_minus_one_wraps() {
    let (mut t, mut s, mut v) = machine(&[r_type(1, 2, 0, 0x1a)]);
    t.vm_state.reg[1] = 0x8000_0000;
    t.vm_state.reg[2] = (-1i32) as u32;
    assert_eq!(t.step(&mut s, &mut v), Step::Next);
    assert_eq!(t.vm_state.lo, 0x8000_0000);
    assert_eq!(t.vm_state.hi, 0);
}

#[test]
fn divu_quotient_and_remainder() {
    let (mut t, mut s, mut v) = machine(&[r_type(1, 2, 0, 0x1b)]);
    t.vm_state.reg[1] = 0xffff_fff9;
    t.vm_state.reg[2] = 2;
    assert_eq!(t.step(&mut s, &mut v), Step::Next);
    assert_eq!(t.vm_state.lo, 0x7fff_fffc);
    assert_eq!(t.vm_state.hi, 1);
}

#[test]
fn mult_signed_splits_product() {
    let (mut t, mut s, mut v) = machine(&[r_type(1, 2, 0, 0x18)]);
    t.vm_state.reg[1] = (-2i32) as u32;
    t.vm_state.reg[2] = 3;
    assert_eq!(t.step(&mut s, &mut v), Step::Next);
    assert_eq!(t.vm_state.lo, (-6i32) as u32);
    assert_eq!(t.vm_state.hi, 0xffff_ffff);
}

#[test]
fn multu_splits_product() {
    let (mut t, mut s, mut v) = machine(&[r_type(1, 2, 0, 0x19)]);
    t.vm_state.reg[1] = 0xffff_ffff;
    t.vm_state.reg[2] = 0xffff_ffff;
    assert_eq!(t.step(&mut s, &mut v), Step::Next);
    assert_eq!(t.vm_state.lo, 1);
    assert_eq!(t.vm_state.hi, 0xffff_fffe);
}

#[test]
fn variable_shifts_mask_amount() {
    let (mut t, mut s, mut v) = machine(&[r_type(1, 2, 3, 0x04), r_type(1, 2, 4, 0x07), r_type(1, 2, 5, 0x06)]);
    t.vm_state.reg[1] = 33;
    t.vm_state.reg[2] = 0x8000_0001;
    assert_eq!(t.step(&mut s, &mut v), Step::Next);
    assert_eq!(t.vm_state.reg[3], 2);
    assert_eq!(t.step(&mut s, &mut v), Step::Next);
    assert_eq!(t.vm_state.reg[4], 0xc000_0000);
    assert_eq!(t.step(&mut s, &mut v), Step::Next);
    assert_eq!(t.vm_state.reg[5], 0x4000_0000);
}

#[test]
fn branch_taken_adds_offset_to_next_pc() {
    // beq $0, $0, +3 at address 0: target 4 + 12.
    let (mut t, mut s, mut v) = machine(&[i_type(0x04, 0, 0, 3)]);
    assert_eq!(t.step(&mut s, &mut v), Step::Next);
    assert_eq!(t.vm_state.pc, 16);
}

#[test]
fn branch_not_taken_skips_slot() {
    let (mut t, mut s, mut v) = machine(&[i_type(0x05, 0, 0, 3)]);
    assert_eq!(t.step(&mut s, &mut v), Step::Next);
    assert_eq!(t.vm_state.pc, 8);
}

#[test]
fn branch_backward() {
    let (mut t, mut s, mut v) = machine(&[0, 0, i_type(0x04, 0, 0, 0xfffe)]);
    t.vm_state.pc = 8;
    assert_eq!(t.step(&mut s, &mut v), Step::Next);
    assert_eq!(t.vm_state.pc, 4);
}

#[test]
fn jal_links_and_jumps() {
    let (mut t, mut s, mut v) = machine(&[(0x03 << 26) | 0x40]);
    assert_eq!(t.step(&mut s, &mut v), Step::Next);
    assert_eq!(t.vm_state.pc, 0x100);
    assert_eq!(t.vm_state.reg[31], 4);
}

#[test]
fn store_word_then_load_word() {
    let (mut t, mut s, mut v) = machine(&[i_type(0x2b, 5, 1, 0x10), i_type(0x23, 5, 2, 0x10)]);
    t.vm_state.reg[5] = DATA;
    t.vm_state.reg[1] = 0xdead_beef;
    assert_eq!(t.step(&mut s, &mut v), Step::Next);
    assert_eq!(t.step(&mut s, &mut v), Step::Next);
    assert_eq!(t.vm_state.reg[2], 0xdead_beef);
}

#[test]
fn load_byte_sign_and_zero_extend() {
    let (mut t, mut s, mut v) = machine(&[i_type(0x28, 5, 1, 0), i_type(0x20, 5, 2, 0), i_type(0x24, 5, 3, 0)]);
    t.vm_state.reg[5] = DATA;
    t.vm_state.reg[1] = 0x80;
    assert_eq!(t.step(&mut s, &mut v), Step::Next);
    assert_eq!(t.step(&mut s, &mut v), Step::Next);
    assert_eq!(t.step(&mut s, &mut v), Step::Next);
    assert_eq!(t.vm_state.reg[2], 0xffff_ff80);
    assert_eq!(t.vm_state.reg[3], 0x80);
}

#[test]
fn words_are_little_endian() {
    let (mut t, mut s, mut v) = machine(&[i_type(0x2b, 5, 1, 0), i_type(0x24, 5, 2, 0), i_type(0x25, 5, 3, 2)]);
    t.vm_state.reg[5] = DATA;
    t.vm_state.reg[1] = 0x1234_5678;
    assert_eq!(t.step(&mut s, &mut v), Step::Next);
    assert_eq!(t.step(&mut s, &mut v), Step::Next);
    assert_eq!(t.step(&mut s, &mut v), Step::Next);
    assert_eq!(t.vm_state.reg[2], 0x78);
    assert_eq!(t.vm_state.reg[3], 0x1234);
}

#[test]
fn load_linked_then_store_conditional_succeeds() {
    let (mut t, mut s, mut v) = machine(&[i_type(0x30, 5, 2, 0), i_type(0x38, 5, 3, 0), i_type(0x23, 5, 4, 0)]);
    t.vm_state.reg[5] = DATA;
    t.vm_state.reg[3] = 77;
    assert_eq!(t.step(&mut s, &mut v), Step::Next);
    assert!(v.ll_bit());
    assert_eq!(t.step(&mut s, &mut v), Step::Next);
    assert_eq!(t.vm_state.reg[3], 1);
    assert!(!v.ll_bit());
    assert_eq!(t.step(&mut s, &mut v), Step::Next);
    assert_eq!(t.vm_state.reg[4], 77);
}

#[test]
fn store_conditional_without_load_linked_fails() {
    let (mut t, mut s, mut v) = machine(&[i_type(0x38, 5, 3, 0), i_type(0x23, 5, 4, 0)]);
    t.vm_state.reg[5] = DATA;
    t.vm_state.reg[3] = 77;
    assert_eq!(t.step(&mut s, &mut v), Step::Next);
    assert_eq!(t.vm_state.reg[3], 0);
    assert_eq!(t.step(&mut s, &mut v), Step::Next);
    assert_eq!(t.vm_state.reg[4], 0);
}

#[test]
fn store_between_load_linked_and_store_conditional_fails() {
    let (mut t, mut s, mut v) = machine(&[
        i_type(0x30, 5, 2, 0),
        i_type(0x28, 5, 0, 0x40),
        i_type(0x38, 5, 3, 0),
        i_type(0x23, 5, 4, 0),
    ]);
    t.vm_state.reg[5] = DATA;
    t.vm_state.reg[3] = 77;
    assert_eq!(t.step(&mut s, &mut v), Step::Next);
    assert_eq!(t.step(&mut s, &mut v), Step::Next);
    assert!(!v.ll_bit());
    assert_eq!(t.step(&mut s, &mut v), Step::Next);
    assert_eq!(t.vm_state.reg[3], 0);
    assert_eq!(t.step(&mut s, &mut v), Step::Next);
    assert_eq!(t.vm_state.reg[4], 0);
}

#[test]
fn unaligned_halfword_faults() {
    for op in [0x21u32, 0x25, 0x29] {
        let (mut t, mut s, mut v) = machine(&[i_type(op, 5, 2, 1)]);
        t.vm_state.reg[5] = DATA;
        assert_eq!(t.step(&mut s, &mut v), Step::Fault(TaskError::MemoryAllignmentError(2, 4)));
    }
}

#[test]
fn unaligned_word_faults_at_every_offset() {
    for op in [0x23u32, 0x2b, 0x30, 0x38] {
        for off in 1..4u16 {
            let (mut t, mut s, mut v) = machine(&[i_type(op, 5, 2, off)]);
            t.vm_state.reg[5] = DATA;
            assert_eq!(t.step(&mut s, &mut v), Step::Fault(TaskError::MemoryAllignmentError(4, 4)));
        }
    }
}

#[test]
fn byte_access_is_never_misaligned() {
    let (mut t, mut s, mut v) = machine(&[i_type(0x24, 5, 2, 3)]);
    t.vm_state.reg[5] = DATA;
    assert_eq!(t.step(&mut s, &mut v), Step::Next);
}

#[test]
fn unmapped_access_faults() {
    let (mut t, mut s, mut v) = machine(&[i_type(0x23, 5, 2, 0)]);
    t.vm_state.reg[5] = 0x0005_0000;
    assert_eq!(t.step(&mut s, &mut v), Step::Fault(TaskError::MemoryDoesNotExistError(0x0005_0000, 4)));
}

#[test]
fn fetch_from_unmapped_page_faults() {
    let (mut t, mut s, mut v) = machine(&[]);
    t.vm_state.pc = 0x0003_0000;
    assert_eq!(t.step(&mut s, &mut v), Step::Fault(TaskError::MemoryDoesNotExistError(0x0003_0000, 0x0003_0000)));
}

#[test]
fn unknown_opcode_is_invalid() {
    let (mut t, mut s, mut v) = machine(&[0xfc00_0000]);
    assert_eq!(t.step(&mut s, &mut v), Step::Fault(TaskError::InvalidOperation(4, 0xfc00_0000)));
}

#[test]
fn syscall_and_trap_raise_calls() {
    let (mut t, mut s, mut v) = machine(&[(100 << 6) | 0x0c, r_type(1, 1, 0, 0x34) | (7 << 6), (534 << 6) | 0x0d]);
    assert_eq!(t.step(&mut s, &mut v), Step::Call(100));
    assert_eq!(t.step(&mut s, &mut v), Step::Call(7));
    assert_eq!(t.step(&mut s, &mut v), Step::Break(534));
}
