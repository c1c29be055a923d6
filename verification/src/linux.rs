//! How the Linux-hosting kernel starts a program: the model-specific registers
//! that lead `syscall` to the handler, and what it says on the way.

use crate::program::LoadedElf;
use crate::runtime::{Ports, Serial};
use crate::text::{push_hex, push_str, push_unsigned};
use vstd::prelude::*;

use crate::runtime::serial_writes;
use crate::text::{decimal, hex, is_number_line, law_numbers_read_back, lemma_number_line, reads_as, text};

verus! {

pub const MSR_EFER: u32 = 0xc000_0080;

pub const MSR_STAR: u32 = 0xc000_0081;

pub const MSR_LSTAR: u32 = 0xc000_0082;

pub const MSR_SFMASK: u32 = 0xc000_0084;

pub const MSR_FS_BASE: u32 = 0xc000_0100;

/// A value for a model-specific register.
#[derive(Debug, Clone, Copy, PartialEq, Eq, Structural)]
pub struct MsrWrite {
    pub msr: u32,
    pub value: u64,
}

/// `efer` with its lowest bit set, which enables `syscall`.
pub open spec fn with_syscall_enabled(efer: u64) -> u64 {
    if efer % 2 == 1 {
        efer
    } else {
        (efer + 1) as u64
    }
}

/// The register writes that make `syscall` enter the kernel at `handler` with
/// CS 0x8 and SS 0x10, interrupts masked, in the order in which they are made.
pub fn msr_setup(efer: u64, handler: u64) -> (writes: [MsrWrite; 4])
    ensures
        writes@ == seq![
            MsrWrite { msr: MSR_EFER, value: with_syscall_enabled(efer) },
            MsrWrite { msr: MSR_STAR, value: 0x8_0000_0000 },
            MsrWrite { msr: MSR_LSTAR, value: handler },
            MsrWrite { msr: MSR_SFMASK, value: 0x200 },
        ],
{
    assert(efer % 2 == 1 ==> efer | 1 == efer) by (bit_vector);
    assert(efer % 2 == 0 ==> efer | 1 == efer + 1) by (bit_vector);
    let writes: [MsrWrite; 4] = [
        MsrWrite { msr: MSR_EFER, value: efer | 1 },
        MsrWrite { msr: MSR_STAR, value: 0x8_0000_0000 },
        MsrWrite { msr: MSR_LSTAR, value: handler },
        MsrWrite { msr: MSR_SFMASK, value: 0x200 },
    ];
    proof {
        assert(writes@ =~= seq![
            MsrWrite { msr: MSR_EFER, value: with_syscall_enabled(efer) },
            MsrWrite { msr: MSR_STAR, value: 0x8_0000_0000 },
            MsrWrite { msr: MSR_LSTAR, value: handler },
            MsrWrite { msr: MSR_SFMASK, value: 0x200 },
        ]);
    }
    writes
}

/// The line about the loaded file.
pub open spec fn loaded_message(elf: LoadedElf) -> Seq<u8> {
    text("[kernel] loaded ELF: entry ") + hex(elf.entry as nat) + text(", ") + decimal(
        elf.phnum as int,
    ) + text(" phdrs, brk starts at ") + hex(elf.brk_start as nat) + seq![10u8]
}

/// Says what has been loaded.
pub fn announce_loaded(ports: &mut Ports, elf: &LoadedElf)
    ensures
        final(ports)@ == old(ports)@ + serial_writes(loaded_message(*elf)),
{
    let mut line: Vec<u8> = Vec::new();
    push_str(&mut line, "[kernel] loaded ELF: entry ");
    push_hex(&mut line, elf.entry);
    push_str(&mut line, ", ");
    push_unsigned(&mut line, elf.phnum);
    push_str(&mut line, " phdrs, brk starts at ");
    push_hex(&mut line, elf.brk_start);
    line.push(10);
    proof {
        assert(line@ =~= loaded_message(*elf));
    }
    let mut serial: Serial = Serial;
    serial.write_bytes(ports, line.as_slice());
}

/// The line about the registers, as they read back.
pub open spec fn msr_message(efer: u64, lstar: u64) -> Seq<u8> {
    text("[kernel] MSRs set: efer=") + hex(efer as nat) + text(" lstar=") + hex(lstar as nat)
        + seq![10u8]
}

/// Says what the registers hold.
pub fn announce_msrs(ports: &mut Ports, efer: u64, lstar: u64)
    ensures
        final(ports)@ == old(ports)@ + serial_writes(msr_message(efer, lstar)),
{
    let mut line: Vec<u8> = Vec::new();
    push_str(&mut line, "[kernel] MSRs set: efer=");
    push_hex(&mut line, efer);
    push_str(&mut line, " lstar=");
    push_hex(&mut line, lstar);
    line.push(10);
    proof {
        assert(line@ =~= msr_message(efer, lstar));
    }
    let mut serial: Serial = Serial;
    serial.write_bytes(ports, line.as_slice());
}

/// The last line before the program runs.
pub open spec fn jump_message(rsp: u64) -> Seq<u8> {
    text("[kernel] jumping to program, rsp=") + hex(rsp as nat) + seq![10u8]
}

/// Says that the program is about to run.
pub fn announce_jump(ports: &mut Ports, rsp: u64)
    ensures
        final(ports)@ == old(ports)@ + serial_writes(jump_message(rsp)),
{
    let mut line: Vec<u8> = Vec::new();
    push_str(&mut line, "[kernel] jumping to program, rsp=");
    push_hex(&mut line, rsp);
    line.push(10);
    proof {
        assert(line@ =~= jump_message(rsp));
    }
    let mut serial: Serial = Serial;
    serial.write_bytes(ports, line.as_slice());
}

/// `syscall` is enabled by the lowest bit of EFER and every other bit is kept. The
/// registers are those of the processor's manual.
pub proof fn law_syscall_enabled(efer: u64)
    ensures
        with_syscall_enabled(efer) == efer | 1,
        with_syscall_enabled(efer) % 2 == 1,
        with_syscall_enabled(efer) / 2 == efer / 2,
        MSR_EFER == 0xc000_0080 && MSR_STAR == 0xc000_0081 && MSR_LSTAR == 0xc000_0082,
        MSR_SFMASK == 0xc000_0084 && MSR_FS_BASE == 0xc000_0100,
{
    assert(efer % 2 == 1 ==> efer | 1 == efer) by (bit_vector);
    assert(efer % 2 == 0 ==> efer | 1 == efer + 1) by (bit_vector);
}

/// The digits of the three numbers in the line about a loaded file.
pub open spec fn loaded_line_of(
    line: Seq<u8>,
    entry: Seq<u8>,
    phnum: Seq<u8>,
    brk: Seq<u8>,
) -> bool {
    line == text("[kernel] loaded ELF: entry ") + seq![0x30u8, 0x78u8] + entry + text(", ") + phnum
        + text(" phdrs, brk starts at ") + seq![0x30u8, 0x78u8] + brk + seq![10u8]
}

/// What the kernel says reads as what happened: the lines give the entry point,
/// the number of headers, the start of the heap, the registers and the stack
/// pointer.
pub proof fn law_lines_read_back(elf: LoadedElf, efer: u64, lstar: u64, rsp: u64)
    ensures
        exists|entry: Seq<u8>, phnum: Seq<u8>, brk: Seq<u8>|
            {
                &&& #[trigger] loaded_line_of(loaded_message(elf), entry, phnum, brk)
                &&& reads_as(entry, 16, elf.entry as nat)
                &&& reads_as(phnum, 10, elf.phnum as nat)
                &&& reads_as(brk, 16, elf.brk_start as nat)
            },
        is_number_line(
            msr_message(efer, lstar),
            text("[kernel] MSRs set: efer=") + hex(efer as nat) + text(" lstar="),
            16,
            lstar as nat,
        ),
        hex(efer as nat)[0] == 0x30 && hex(efer as nat)[1] == 0x78 && reads_as(
            hex(efer as nat).skip(2),
            16,
            efer as nat,
        ),
        is_number_line(
            jump_message(rsp),
            text("[kernel] jumping to program, rsp="),
            16,
            rsp as nat,
        ),
{
    law_numbers_read_back(elf.entry as int);
    law_numbers_read_back(elf.phnum as int);
    law_numbers_read_back(elf.brk_start as int);
    law_numbers_read_back(efer as int);
    let entry = hex(elf.entry as nat).skip(2);
    let brk = hex(elf.brk_start as nat).skip(2);
    assert(seq![0x30u8, 0x78u8] + entry =~= hex(elf.entry as nat));
    assert(seq![0x30u8, 0x78u8] + brk =~= hex(elf.brk_start as nat));
    assert(loaded_message(elf) =~= text("[kernel] loaded ELF: entry ") + seq![0x30u8, 0x78u8] + entry
        + text(", ") + decimal(elf.phnum as int) + text(" phdrs, brk starts at ")
        + seq![0x30u8, 0x78u8] + brk + seq![10u8]);
    assert(loaded_line_of(loaded_message(elf), entry, decimal(elf.phnum as int), brk));
    lemma_number_line(
        text("[kernel] MSRs set: efer=") + hex(efer as nat) + text(" lstar="),
        lstar as nat,
    );
    lemma_number_line(text("[kernel] jumping to program, rsp="), rsp as nat);
}

} // verus!
