use rcore_syscall::memory::{
    page_ceil, page_floor, page_offset, physical_address, sys_mmap, sys_munmap, MapPermission,
    PageTableEntry, PAGE_SIZE,
};

fn valid() -> Option<PageTableEntry> {
    Some(PageTableEntry { bits: 0x1f })
}

fn invalid() -> Option<PageTableEntry> {
    Some(PageTableEntry { bits: 0x1e })
}

#[test]
fn page_rounding() {
    assert_eq!(PAGE_SIZE, 4096);
    assert_eq!(page_floor(0), 0);
    assert_eq!(page_floor(4095), 0);
    assert_eq!(page_floor(4096), 1);
    assert_eq!(page_ceil(0), 0);
    assert_eq!(page_ceil(1), 1);
    assert_eq!(page_ceil(4096), 1);
    assert_eq!(page_ceil(4097), 2);
    assert_eq!(page_ceil(usize::MAX), usize::MAX / 4096 + 1);
    assert_eq!(page_offset(0x1234), 0x234);
}

#[test]
fn pte_fields() {
    let e = PageTableEntry { bits: (0x8_0123u64 << 10) | 0x1 };
    assert!(e.is_valid());
    assert_eq!(e.ppn(), 0x8_0123);
    assert!(!PageTableEntry { bits: 0x1e }.is_valid());
    assert_eq!(physical_address(e, 0x1000_0abc), (0x8_0123u64 << 12) + 0xabc);
}

#[test]
fn mmap_rejects_bad_arguments() {
    assert_eq!(sys_mmap(0x1001, 4096, 1, &[]), None);
    assert_eq!(sys_mmap(0x1000, 4096, 0, &[]), None);
    assert_eq!(sys_mmap(0x1000, 4096, 8, &[]), None);
    assert_eq!(sys_mmap(0x1000, 4096, 9, &[]), None);
}

#[test]
fn mmap_permissions() {
    assert_eq!(sys_mmap(0x1000, 4096, 1, &[None]), Some(MapPermission { bits: 0x12 }));
    assert_eq!(sys_mmap(0x1000, 4096, 3, &[None]), Some(MapPermission { bits: 0x16 }));
    assert_eq!(sys_mmap(0x1000, 4096, 4, &[None]), Some(MapPermission { bits: 0x18 }));
    assert_eq!(sys_mmap(0x1000, 4096, 7, &[None]), Some(MapPermission { bits: 0x1e }));
}

#[test]
fn mmap_over_a_mapped_page_fails() {
    assert_eq!(sys_mmap(0x1000, 8192, 3, &[None, valid()]), None);
    assert_eq!(sys_mmap(0x1000, 8192, 3, &[invalid(), None]), Some(MapPermission { bits: 0x16 }));
    assert_eq!(sys_mmap(0x1000, 0, 3, &[]), Some(MapPermission { bits: 0x16 }));
    assert_eq!(sys_mmap(0x1000, 4097, 2, &[None, None]), Some(MapPermission { bits: 0x14 }));
}

#[test]
fn munmap_checks() {
    assert_eq!(sys_munmap(0x1001, 4096, &[]), None);
    assert_eq!(sys_munmap(0x3000, 4096, &[valid()]), Some(3));
    assert_eq!(sys_munmap(0x3000, 8192, &[valid(), None]), Some(3));
    assert_eq!(sys_munmap(0x3000, 8192, &[valid(), invalid()]), None);
}
