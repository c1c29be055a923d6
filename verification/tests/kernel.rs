use rust_kvm_os::abi::MEM_SIZE;
use rust_kvm_os::boot::{
    code_segment, data_segment, entry_registers, prepare, special_registers, task_segment, STACK_TOP,
};
use rust_kvm_os::kernel_image::{load_kernel, place_segments, FileSegment, LoadError};
use rust_kvm_os::memory::read_u64;
use rust_kvm_os::paging::write_page_tables;

struct Load {
    kind: u32,
    vaddr: u64,
    offset: u64,
    filesz: u64,
    memsz: u64,
}

/// A 64-bit ELF executable with the given program headers and a tail of data.
fn elf(entry: u64, loads: &[Load], tail: &[u8]) -> Vec<u8> {
    let mut file = vec![0x7f, b'E', b'L', b'F', 2, 1, 1, 0, 0, 0, 0, 0, 0, 0, 0, 0];
    file.extend_from_slice(&2u16.to_le_bytes());
    file.extend_from_slice(&62u16.to_le_bytes());
    file.extend_from_slice(&1u32.to_le_bytes());
    file.extend_from_slice(&entry.to_le_bytes());
    file.extend_from_slice(&64u64.to_le_bytes());
    file.extend_from_slice(&0u64.to_le_bytes());
    file.extend_from_slice(&0u32.to_le_bytes());
    file.extend_from_slice(&64u16.to_le_bytes());
    file.extend_from_slice(&56u16.to_le_bytes());
    file.extend_from_slice(&(loads.len() as u16).to_le_bytes());
    file.extend_from_slice(&[0; 6]);
    for load in loads {
        file.extend_from_slice(&load.kind.to_le_bytes());
        file.extend_from_slice(&5u32.to_le_bytes());
        file.extend_from_slice(&load.offset.to_le_bytes());
        file.extend_from_slice(&load.vaddr.to_le_bytes());
        file.extend_from_slice(&load.vaddr.to_le_bytes());
        file.extend_from_slice(&load.filesz.to_le_bytes());
        file.extend_from_slice(&load.memsz.to_le_bytes());
        file.extend_from_slice(&0x1000u64.to_le_bytes());
    }
    file.extend_from_slice(tail);
    file
}

#[test]
fn kernel_segments_go_to_their_addresses() {
    let data_at = 64 + 3 * 56;
    let loads = [
        Load { kind: 1, vaddr: 0x20_0000, offset: data_at, filesz: 4, memsz: 0x100 },
        Load { kind: 4, vaddr: 0x20_1000, offset: data_at, filesz: 4, memsz: 4 },
        Load { kind: 1, vaddr: 0x20_0002, offset: data_at + 4, filesz: 2, memsz: 2 },
    ];
    let file = elf(0x20_0040, &loads, &[1, 2, 3, 4, 5, 6]);
    let mut ram = vec![0u8; MEM_SIZE];
    assert_eq!(load_kernel(&mut ram, &file), Ok(0x20_0040));
    assert_eq!(ram[0x20_0000..0x20_0006], [1, 2, 5, 6, 0, 0]);
    assert_eq!(ram[0x20_1000..0x20_1004], [0, 0, 0, 0]);
    assert!(ram[..0x20_0000].iter().all(|b| *b == 0));
}

#[test]
fn kernel_without_segments_loads_nothing() {
    let mut ram = vec![7u8; 0x1000];
    assert_eq!(load_kernel(&mut ram, &elf(0x1234, &[], &[])), Ok(0x1234));
    assert!(ram.iter().all(|b| *b == 7));
}

#[test]
fn what_is_no_object_file_is_refused() {
    let mut ram = vec![7u8; 0x1000];
    assert_eq!(load_kernel(&mut ram, b"#!/bin/sh\necho not a kernel\n"), Err(LoadError::Parse));
    assert_eq!(load_kernel(&mut ram, &[]), Err(LoadError::Parse));
    let mut file = elf(0, &[], &[]);
    file.truncate(40);
    assert_eq!(load_kernel(&mut ram, &file), Err(LoadError::Parse));
    assert!(ram.iter().all(|b| *b == 7));
}

#[test]
fn segment_data_outside_the_file_is_refused() {
    let loads = [
        Load { kind: 1, vaddr: 0x10, offset: 64, filesz: 2, memsz: 2 },
        Load { kind: 1, vaddr: 0x20, offset: 1 << 40, filesz: 1, memsz: 1 },
    ];
    let mut ram = vec![0u8; 0x100];
    assert_eq!(load_kernel(&mut ram, &elf(0, &loads, &[])), Err(LoadError::SegmentData));
    assert_eq!(ram[0x10..0x12], [1, 0]);
}

#[test]
fn segment_past_the_end_of_memory_is_refused() {
    let loads = [Load { kind: 1, vaddr: 0xfe, offset: 0, filesz: 4, memsz: 4 }];
    let mut ram = vec![0u8; 0x100];
    assert_eq!(load_kernel(&mut ram, &elf(0, &loads, &[])), Err(LoadError::PastEnd));
    let loads = [Load { kind: 1, vaddr: u64::MAX, offset: 0, filesz: 4, memsz: 4 }];
    assert_eq!(load_kernel(&mut ram, &elf(0, &loads, &[])), Err(LoadError::PastEnd));
    let loads = [Load { kind: 1, vaddr: 0xfc, offset: 0, filesz: 4, memsz: 4 }];
    assert_eq!(load_kernel(&mut ram, &elf(0, &loads, &[])), Ok(0));
    assert_eq!(ram[0xfc..], [0x7f, b'E', b'L', b'F']);
}

#[test]
fn empty_segment_is_passed_over_wherever_it_points() {
    let segments = [
        FileSegment { address: u64::MAX, data: Some(vec![]) },
        FileSegment { address: 1, data: Some(vec![8, 9]) },
    ];
    let mut ram = vec![0u8; 4];
    assert_eq!(place_segments(&mut ram, &segments), Ok(()));
    assert_eq!(ram, vec![0, 8, 9, 0]);
    assert_eq!(
        place_segments(&mut ram, &[FileSegment { address: 0, data: None }]),
        Err(LoadError::SegmentData)
    );
}

/// Walks the tables by hand, as the hardware does with 2 MiB pages.
fn walk(ram: &[u8], va: u64) -> Option<u64> {
    let pml4e = read_u64(ram, 0x1000 + 8 * ((va >> 39) & 511));
    if pml4e & 1 == 0 {
        return None;
    }
    let pdpte = read_u64(ram, (pml4e & !0xfff) + 8 * ((va >> 30) & 511));
    if pdpte & 1 == 0 {
        return None;
    }
    let pde = read_u64(ram, (pdpte & !0xfff) + 8 * ((va >> 21) & 511));
    if pde & 0x81 != 0x81 {
        return None;
    }
    Some((pde & !0x1f_ffff) + (va & 0x1f_ffff))
}

#[test]
fn first_gib_is_mapped_to_itself_and_no_more() {
    let mut ram = vec![0u8; 0x5000];
    write_page_tables(&mut ram);
    assert_eq!(read_u64(&ram, 0x1000), 0x2003);
    assert_eq!(read_u64(&ram, 0x2000), 0x3003);
    assert_eq!(read_u64(&ram, 0x3000), 0x83);
    assert_eq!(read_u64(&ram, 0x3000 + 511 * 8), 0x3fe0_0083);
    for va in [0, 1, 0x20_0000, 0x1ff_ffff, 0x3fff_ffff] {
        assert_eq!(walk(&ram, va), Some(va));
    }
    for va in [0x4000_0000, 0x80_0000_0000, 0xffff_ffff_ffff] {
        assert_eq!(walk(&ram, va), None);
    }
    assert!(ram[..0x1000].iter().all(|b| *b == 0));
    assert!(ram[0x4000..].iter().all(|b| *b == 0));
}

#[test]
fn kernel_above_the_tables_leaves_the_map_intact() {
    let mut ram = vec![0u8; 0x20_1000];
    let loads = [Load { kind: 1, vaddr: 0x20_0000, offset: 0, filesz: 64, memsz: 64 }];
    let ready = prepare(&mut ram, &elf(0x20_0010, &loads, &[])).unwrap();
    assert_eq!(ready.entry.rip, 0x20_0010);
    assert_eq!(ready.entry.rsp, STACK_TOP);
    assert_eq!(ready.entry.rflags, 2);
    assert_eq!(ready.special, special_registers());
    assert_eq!(walk(&ram, 0x20_0010), Some(0x20_0010));
    assert_eq!(ram[0x20_0000], 0x7f);
    assert_eq!(prepare(&mut ram, b"nothing like a kernel"), Err(LoadError::Parse));
}

#[test]
fn vcpu_starts_in_long_mode() {
    let regs = special_registers();
    assert_eq!((regs.cr0, regs.cr3, regs.cr4, regs.efer), (0x8000_0033, 0x1000, 0x620, 0x500));
    assert_eq!(regs.cs, code_segment());
    assert_eq!(regs.data, data_segment());
    assert_eq!(regs.tr, task_segment());
    let (cs, ds, tr) = (code_segment(), data_segment(), task_segment());
    assert_eq!((cs.selector, cs.type_, cs.s, cs.l, cs.db, cs.present, cs.g), (8, 0xb, 1, 1, 0, 1, 1));
    assert_eq!((ds.selector, ds.type_, ds.s, ds.l, ds.db, ds.present, ds.g), (0x10, 3, 1, 0, 1, 1, 1));
    assert_eq!((tr.selector, tr.type_, tr.s, tr.l, tr.db, tr.present, tr.g), (0x18, 0xb, 0, 0, 0, 1, 1));
    assert_eq!((cs.base, ds.limit, tr.dpl), (0, 0xfffff, 0));
    assert_eq!(entry_registers(77).rip, 77);
}
