use rust_kvm_os::abi::{EXIT_PORT, MEM_SIZE, SCRATCH_ADDR, SERIAL_PORT, STATE_ADDR};
use rust_kvm_os::linux::{announce_jump, announce_loaded, announce_msrs, msr_setup, MsrWrite};
use rust_kvm_os::memory::{read_u64, write_bytes, write_u64};
use rust_kvm_os::program::{align_page, load_program, place_program, LoadedElf, ProgramError, BRK_MAX};
use rust_kvm_os::runtime::Ports;
use rust_kvm_os::stack::{build_stack, ARGV0_ADDR, ENTRY_RSP, PROGRAM_STACK_TOP, RANDOM_ADDR};
use rust_kvm_os::syscall::{
    write_out, Outcome, Syscalls, EBADF, EINVAL, ENOMEM, ENOSYS, ENOTTY, FRAME, MMAP_BASE, MMAP_MAX,
    SYSCALL_STACK_TOP,
};

const AT: u64 = 0x0200_0000;

/// kind, offset, vaddr, filesz, memsz
type Header = (u32, u64, u64, u64, u64);

fn image(kind: u16, phoff: u64, headers: &[Header], tail: &[u8]) -> Vec<u8> {
    let mut file = vec![0u8; 64];
    file[..4].copy_from_slice(b"\x7fELF");
    file[16..18].copy_from_slice(&kind.to_le_bytes());
    file[24..32].copy_from_slice(&0x40_1000u64.to_le_bytes());
    file[32..40].copy_from_slice(&phoff.to_le_bytes());
    file[54..56].copy_from_slice(&56u16.to_le_bytes());
    file[56..58].copy_from_slice(&(headers.len() as u16).to_le_bytes());
    for h in headers {
        let mut entry = vec![0u8; 56];
        entry[..4].copy_from_slice(&h.0.to_le_bytes());
        entry[8..16].copy_from_slice(&h.1.to_le_bytes());
        entry[16..24].copy_from_slice(&h.2.to_le_bytes());
        entry[32..40].copy_from_slice(&h.3.to_le_bytes());
        entry[40..48].copy_from_slice(&h.4.to_le_bytes());
        file.extend_from_slice(&entry);
    }
    file.extend_from_slice(tail);
    file
}

fn load(file: &[u8]) -> (Vec<u8>, Result<LoadedElf, ProgramError>) {
    let mut ram = vec![0x55u8; MEM_SIZE];
    place_program(&mut ram, AT, file);
    let loaded = load_program(&mut ram, AT);
    (ram, loaded)
}

#[test]
fn segments_are_copied_and_their_tails_cleared() {
    let tail_at = 64 + 2 * 56;
    let file = image(
        2,
        64,
        &[(1, tail_at, 0x50_0000, 3, 8), (1, 0, 0x40_0000, tail_at, tail_at)],
        &[7, 8, 9],
    );
    let (ram, loaded) = load(&file);
    let elf = loaded.unwrap();
    assert_eq!(ram[0x50_0000..0x50_0009], [7, 8, 9, 0, 0, 0, 0, 0, 0x55]);
    assert_eq!(ram[0x40_0000..0x40_0004], *b"\x7fELF");
    assert_eq!(ram[0x3f_ffff], 0x55);
    assert_eq!(
        elf,
        LoadedElf { entry: 0x40_1000, phdr_vaddr: 0x40_0040, phent: 56, phnum: 2, brk_start: 0x50_1000 }
    );
    assert_eq!(ram[AT as usize + 16..AT as usize + 16 + file.len()], file[..]);
}

#[test]
fn header_segment_says_where_the_headers_are() {
    let file = image(2, 64, &[(6, 64, 0x12_3456, 112, 112), (1, 0, 0x40_0000, 64, 64)], &[]);
    let elf = load(&file).1.unwrap();
    assert_eq!(elf.phdr_vaddr, 0x12_3456);
    assert_eq!(elf.brk_start, 0x40_1000);
    let file = image(2, 64, &[(1, 0, 0x40_0000, 64, 64)], &[]);
    assert_eq!(load(&file).1.unwrap().phdr_vaddr, 0);
}

#[test]
fn program_without_segments_has_an_empty_heap_at_zero() {
    let elf = load(&image(2, 64, &[], &[])).1.unwrap();
    assert_eq!((elf.phnum, elf.brk_start, elf.phdr_vaddr), (0, 0, 0));
}

#[test]
fn missing_image_is_refused() {
    let mut ram = vec![0u8; MEM_SIZE];
    assert_eq!(load_program(&mut ram, AT), Err(ProgramError::NoImage));
    assert_eq!(
        ProgramError::NoImage.message(),
        "no program image; run: vmm <kernel> <static-linux-elf>"
    );
}

#[test]
fn other_files_are_refused() {
    let mut file = image(2, 64, &[], &[]);
    file[1] = b'M';
    assert_eq!(load(&file).1, Err(ProgramError::NotElf));
    assert_eq!(ProgramError::NotElf.message(), "not an ELF");
    assert_eq!(load(&image(3, 64, &[], &[])).1, Err(ProgramError::NotExec));
    assert_eq!(ProgramError::NotExec.message(), "not ET_EXEC; build with -static -no-pie");
}

#[test]
fn segment_beyond_the_program_region_is_refused() {
    let fits = image(2, 64, &[(1, 0, BRK_MAX - 16, 8, 16)], &[]);
    assert_eq!(load(&fits).1.unwrap().brk_start, BRK_MAX);
    let over = image(2, 64, &[(1, 0, BRK_MAX - 16, 8, 17)], &[]);
    let (ram, loaded) = load(&over);
    assert_eq!(loaded, Err(ProgramError::SegmentOutside));
    assert_eq!(ram[BRK_MAX as usize - 16], 0x55);
    let wraps = image(2, 64, &[(1, 0, u64::MAX, 0, 2)], &[]);
    assert_eq!(load(&wraps).1, Err(ProgramError::SegmentOutside));
    assert_eq!(ProgramError::SegmentOutside.message(), "segment outside program region");
}

#[test]
fn image_that_reaches_outside_memory_faults() {
    let far = image(2, u64::MAX, &[(1, 0, 0, 0, 0)], &[]);
    assert_eq!(load(&far).1, Err(ProgramError::Fault));
    let data = image(2, 64, &[(1, 1 << 40, 0x40_0000, 1, 1)], &[]);
    assert_eq!(load(&data).1, Err(ProgramError::Fault));
    let shrinks = image(2, 64, &[(1, 0, 0x40_0000, 9, 8)], &[]);
    assert_eq!(load(&shrinks).1, Err(ProgramError::Fault));
    let nothing = image(2, 64, &[(1, 1 << 40, 0x40_0000, 0, 4)], &[]);
    let (ram, loaded) = load(&nothing);
    assert_eq!(loaded.unwrap().brk_start, 0x40_1000);
    assert_eq!(ram[0x40_0000..0x40_0005], [0, 0, 0, 0, 0x55]);
    assert_eq!(ProgramError::Fault.message(), "program image reaches outside memory");
}

#[test]
fn pages_are_rounded_up() {
    assert_eq!(align_page(0), 0);
    assert_eq!(align_page(1), 0x1000);
    assert_eq!(align_page(0x1000), 0x1000);
    assert_eq!(align_page(0x1001), 0x2000);
    assert_eq!(align_page(u64::MAX - 0xfff), 0xffff_ffff_ffff_f000);
}

#[test]
fn entry_stack_holds_arguments_and_auxiliary_vector() {
    let elf = LoadedElf { entry: 0x401000, phdr_vaddr: 0x400040, phent: 56, phnum: 4, brk_start: 0x4c0000 };
    let mut ram = vec![0x11u8; MEM_SIZE];
    let rsp = build_stack(&mut ram, &elf);
    assert_eq!(rsp, 0x02ff_ff20);
    assert_eq!(rsp, ENTRY_RSP);
    let words: Vec<u64> = (0..20).map(|i| read_u64(&ram, rsp + 8 * i)).collect();
    assert_eq!(
        words,
        vec![
            1, ARGV0_ADDR, 0, 0, 3, 0x400040, 4, 56, 5, 4, 6, 4096, 25, RANDOM_ADDR, 9, 0x401000, 23, 0, 0, 0
        ]
    );
    assert_eq!(ARGV0_ADDR, PROGRAM_STACK_TOP - 32);
    assert_eq!(ram[ARGV0_ADDR as usize..ARGV0_ADDR as usize + 7], *b"hello\0\x11");
    assert_eq!(read_u64(&ram, RANDOM_ADDR), 0x243f_6a88_85a3_08d3);
    assert_eq!(read_u64(&ram, RANDOM_ADDR + 8), 0x1319_8a2e_0370_7344);
    assert_eq!(ram[rsp as usize - 1], 0x11);
    assert_eq!(ram[PROGRAM_STACK_TOP as usize], 0x11);
}

struct Machine {
    ram: Vec<u8>,
    ports: Ports,
    calls: Syscalls,
}

impl Machine {
    fn new(brk: u64) -> Machine {
        Machine { ram: vec![0; MEM_SIZE], ports: Ports::new(), calls: Syscalls::new(brk) }
    }

    fn call(&mut self, nr: u64, a1: u64, a2: u64, a3: u64, a4: u64) -> Outcome {
        for (i, word) in [nr, a1, a2, a3, a4].iter().enumerate() {
            write_u64(&mut self.ram, FRAME + 8 * i as u64, *word);
        }
        self.calls.syscall_handler(&mut self.ports, &mut self.ram, 0xf5ba5e)
    }

    fn serial(&self) -> Vec<u8> {
        self.ports.log.iter().filter(|w| w.port == SERIAL_PORT).map(|w| w.value).collect()
    }
}

#[test]
fn write_sends_its_buffer() {
    let mut m = Machine::new(0);
    write_bytes(&mut m.ram, 0x1000, b"hi there");
    assert_eq!(m.call(1, 1, 0x1000, 2, 0), Outcome::Return(2));
    assert_eq!(m.call(1, 2, 0x1002, 6, 0), Outcome::Return(6));
    assert_eq!(m.call(1, 1, u64::MAX, 0, 0), Outcome::Return(0));
    assert_eq!(m.serial(), b"hi there");
}

#[test]
fn writev_sends_all_buffers_and_returns_their_length() {
    let mut m = Machine::new(0);
    write_bytes(&mut m.ram, 0x1000, b"onetwo");
    for (i, word) in [0x1003u64, 3, 0, 0, 0x1000, 3].iter().enumerate() {
        write_u64(&mut m.ram, 0x2000 + 8 * i as u64, *word);
    }
    assert_eq!(m.call(20, 1, 0x2000, 3, 0), Outcome::Return(6));
    assert_eq!(m.serial(), b"twoone");
    assert_eq!(m.call(20, 1, 0x2000, 0, 0), Outcome::Return(0));
}

#[test]
fn other_descriptors_are_refused_in_silence() {
    let mut m = Machine::new(5);
    let before = m.calls;
    assert_eq!(m.call(1, 0, 0x1000, 4, 0), Outcome::Return(EBADF));
    assert_eq!(m.call(20, 3, 0x1000, 4, 0), Outcome::Return(EBADF));
    assert!(m.ports.log.is_empty());
    assert_eq!(m.calls, before);
    assert_eq!(EBADF as i64, -9);
}

#[test]
fn output_from_outside_memory_faults() {
    let mut m = Machine::new(0);
    let end = MEM_SIZE as u64;
    m.ram[MEM_SIZE - 1] = b'z';
    assert_eq!(m.call(1, 1, end - 1, 2, 0), Outcome::Fault);
    assert_eq!(m.serial(), b"z");
    assert_eq!(m.call(20, 1, end - 8, 1, 0), Outcome::Fault);
    assert_eq!(m.call(20, 1, u64::MAX, u64::MAX, 0), Outcome::Fault);
    write_u64(&mut m.ram, 0x2000, end);
    write_u64(&mut m.ram, 0x2008, 1);
    assert_eq!(m.call(20, 1, 0x2000, 1, 0), Outcome::Fault);
    let mut ports = Ports::new();
    assert!(write_out(&mut ports, b"abc", 1, 2));
    assert!(!write_out(&mut ports, b"abc", 3, 1));
    assert_eq!(ports.log.len(), 2);
}

#[test]
fn heap_end_moves_up_to_its_limit_and_never_back() {
    let mut m = Machine::new(0x50_0000);
    assert_eq!(m.call(12, 0, 0, 0, 0), Outcome::Return(0x50_0000));
    assert_eq!(m.call(12, 0x60_0000, 0, 0, 0), Outcome::Return(0x60_0000));
    assert_eq!(m.call(12, 0x55_0000, 0, 0, 0), Outcome::Return(0x60_0000));
    assert_eq!(m.call(12, BRK_MAX, 0, 0, 0), Outcome::Return(0x60_0000));
    assert_eq!(m.call(12, BRK_MAX - 1, 0, 0, 0), Outcome::Return(BRK_MAX - 1));
}

#[test]
fn mappings_are_whole_pages_that_do_not_overlap() {
    let mut m = Machine::new(0);
    assert_eq!(m.call(9, 0, 1, 3, 0x22), Outcome::Return(MMAP_BASE));
    assert_eq!(m.call(9, 0, 0x1001, 3, 0x22), Outcome::Return(MMAP_BASE + 0x1000));
    assert_eq!(m.call(9, 0, 0, 3, 0x22), Outcome::Return(MMAP_BASE + 0x3000));
    assert_eq!(m.call(11, MMAP_BASE, 0x1000, 0, 0), Outcome::Return(0));
    assert_eq!(m.call(9, 0, 0x1000, 3, 0x2), Outcome::Return(ENOSYS));
    assert_eq!(m.call(9, 0, 0x1000, 3, 0x20), Outcome::Return(MMAP_BASE + 0x3000));
    assert_eq!(ENOSYS as i64, -38);
}

#[test]
fn mapping_beyond_the_arena_is_refused_and_still_counts() {
    let mut m = Machine::new(0);
    let all = MMAP_MAX - MMAP_BASE;
    assert_eq!(m.call(9, 0, all, 3, 0x22), Outcome::Return(MMAP_BASE));
    assert_eq!(m.call(9, 0, 1, 3, 0x22), Outcome::Return(ENOMEM));
    assert_eq!(m.calls.mmap, MMAP_MAX + 0x1000);
    assert_eq!(m.call(9, 0, u64::MAX, 3, 0x22), Outcome::Fault);
    assert_eq!(m.call(9, 0, 0xffff_ffff_ffff_0000, 3, 0x22), Outcome::Fault);
    assert_eq!(m.calls.mmap, MMAP_MAX + 0x1000);
    assert_eq!(ENOMEM as i64, -12);
}

#[test]
fn thread_pointer_is_set_and_read() {
    let mut m = Machine::new(0);
    assert_eq!(m.call(158, 0x1002, 0x7000, 0, 0), Outcome::SetFsBase(0x7000));
    assert_eq!(m.call(158, 0x1003, 0x8000, 0, 0), Outcome::Return(0));
    assert_eq!(read_u64(&m.ram, 0x8000), 0xf5ba5e);
    assert_eq!(m.call(158, 0x1003, MEM_SIZE as u64 - 7, 0, 0), Outcome::Fault);
    assert_eq!(m.call(158, 0x1001, 0, 0, 0), Outcome::Return(EINVAL));
    assert_eq!(EINVAL as i64, -22);
}

#[test]
fn harmless_calls_are_answered() {
    let mut m = Machine::new(0);
    assert_eq!(m.call(16, 1, 0x5413, 0, 0), Outcome::Return(ENOTTY));
    assert_eq!(ENOTTY as i64, -25);
    for nr in [218, 39, 186] {
        assert_eq!(m.call(nr, 0, 0, 0, 0), Outcome::Return(1));
    }
    for nr in [11, 13, 14, 102, 104, 107, 108] {
        assert_eq!(m.call(nr, 0, 0, 0, 0), Outcome::Return(0));
    }
    assert!(m.ports.log.is_empty());
}

#[test]
fn unknown_calls_are_announced() {
    let mut m = Machine::new(0);
    assert_eq!(m.call(257, 0, 0, 0, 0), Outcome::Return(ENOSYS));
    assert_eq!(m.serial(), b"[kernel] unhandled syscall 257\n");
}

#[test]
fn exit_announces_the_status_and_asks_the_host() {
    let mut m = Machine::new(0);
    assert_eq!(m.call(231, u64::MAX, 0, 0, 0), Outcome::Exit);
    assert_eq!(m.serial(), b"[kernel] program exited with -1\n");
    let last = m.ports.log.last().unwrap();
    assert_eq!((last.port, last.value), (EXIT_PORT, 255));
    let mut m = Machine::new(0);
    assert_eq!(m.call(60, 259, 0, 0, 0), Outcome::Exit);
    assert_eq!(m.serial(), b"[kernel] program exited with 259\n");
    assert_eq!(m.ports.log.last().unwrap().value, 3);
}

#[test]
fn syscall_registers_are_set_in_order() {
    assert_eq!(
        msr_setup(0x500, 0x20_1234),
        [
            MsrWrite { msr: 0xc000_0080, value: 0x501 },
            MsrWrite { msr: 0xc000_0081, value: 0x8_0000_0000 },
            MsrWrite { msr: 0xc000_0082, value: 0x20_1234 },
            MsrWrite { msr: 0xc000_0084, value: 0x200 },
        ]
    );
    assert_eq!(msr_setup(0x501, 0)[0].value, 0x501);
}

#[test]
fn kernel_says_what_it_does() {
    let mut m = Machine::new(0);
    let elf = LoadedElf { entry: 0x401000, phdr_vaddr: 0, phent: 56, phnum: 10, brk_start: 0x4c0000 };
    announce_loaded(&mut m.ports, &elf);
    announce_msrs(&mut m.ports, 0x501, 0x200000);
    announce_jump(&mut m.ports, 0x2ffff20);
    assert_eq!(
        String::from_utf8(m.serial()).unwrap(),
        "[kernel] loaded ELF: entry 0x401000, 10 phdrs, brk starts at 0x4c0000\n\
         [kernel] MSRs set: efer=0x501 lstar=0x200000\n\
         [kernel] jumping to program, rsp=0x2ffff20\n"
    );
}

#[test]
fn image_may_lie_below_the_segments() {
    let file = image(2, 64, &[(1, 64 + 56, 0x40_0000, 2, 4)], &[5, 6]);
    let mut ram = vec![0x55u8; MEM_SIZE];
    place_program(&mut ram, 0x10_0000, &file);
    let elf = load_program(&mut ram, 0x10_0000).unwrap();
    assert_eq!(ram[0x3f_ffff..0x40_0005], [0x55, 5, 6, 0, 0, 0x55]);
    assert_eq!(elf.brk_start, 0x40_1000);
}

#[test]
fn headers_are_found_in_the_first_segment_that_holds_them() {
    let plain = [(1, 200, 0x30_0000, 4, 4), (1, 64, 0x40_0000, 8, 8), (1, 0, 0x50_0000, 99, 99)];
    assert_eq!(load(&image(2, 64, &plain, &[0; 99])).1.unwrap().phdr_vaddr, 0x40_0000);
    let zero = [(1, 64, 0x40_0000, 8, 8), (6, 0, 0, 0, 0), (1, 0, 0x50_0000, 99, 99)];
    assert_eq!(load(&image(2, 64, &zero, &[0; 99])).1.unwrap().phdr_vaddr, 0x50_0040);
    let last = [(6, 0, 7, 0, 0), (1, 64, 0x40_0000, 8, 8), (6, 0, 9, 0, 0)];
    assert_eq!(load(&image(2, 64, &last, &[0; 99])).1.unwrap().phdr_vaddr, 9);
}

#[test]
fn gaps_of_the_entry_stack_are_left_alone() {
    let elf = LoadedElf { entry: 1, phdr_vaddr: 2, phent: 3, phnum: 4, brk_start: 5 };
    let mut ram = vec![0x11u8; MEM_SIZE];
    build_stack(&mut ram, &elf);
    assert!(ram[0x02ff_ffc0..0x02ff_ffe0].iter().all(|b| *b == 0x11));
    assert!(ram[0x02ff_ffe6..0x02ff_fff0].iter().all(|b| *b == 0x11));
}

#[test]
fn hosted_program_has_its_memory_in_order() {
    assert_eq!(FRAME, SCRATCH_ADDR);
    assert_eq!(SYSCALL_STACK_TOP, SCRATCH_ADDR + 0x11000);
    assert_eq!((BRK_MAX, MMAP_BASE, MMAP_MAX), (0x00e0_0000, 0x0280_0000, 0x02f0_0000));
    assert!(BRK_MAX <= STATE_ADDR && MMAP_MAX < ENTRY_RSP && PROGRAM_STACK_TOP as usize <= MEM_SIZE);
}
