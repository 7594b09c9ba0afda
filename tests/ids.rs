use vm_core::ids::{ProcessId, TaskId};
use vm_core::memory::split_address;
use vm_core::page::Page;

#[test]
fn zero_is_no_id() {
    assert!(TaskId::new(0).is_none());
    assert!(ProcessId::new(0).is_none());
    assert_eq!(TaskId::new(5).unwrap().into_raw(), 5);
    assert_eq!(ProcessId::new(9).unwrap().to_tid().into_raw(), 9);
    assert_eq!(TaskId::from_raw(4).to_pid().into_raw(), 4);
}

#[test]
fn address_splits_into_page_and_offset() {
    assert_eq!(split_address(0x1234_5678), (0x1234, 0x5678));
}

#[test]
fn page_halfword_and_word_round_trip() {
    let mut p = Page::new();
    p.set_u32(8, 0xa1b2_c3d4);
    assert_eq!(p.get_u32(8), 0xa1b2_c3d4);
    assert_eq!(p.get_u8(8), 0xd4);
    p.set_u16(2, 0xbeef);
    assert_eq!(p.get_u16(2), 0xbeef);
    assert_eq!(p.get_u8(3), 0xbe);
}
