//! The state in which the vCPU starts: 64-bit long mode with paging and SSE on.
//! There is no firmware and no boot loader, so this is all that the guest
//! inherits.

use crate::kernel_image::{load_kernel, LoadError};
use crate::paging::{write_page_tables, PML4_ADDR};
use vstd::prelude::*;

use crate::kernel_image::{elf64, elf_header_count, elf_segments, object_file, place};
use crate::memory::word;
use crate::paging::with_page_tables;

verus! {

/// Grows down, above the page tables and below the kernel.
pub const STACK_TOP: u64 = 0x1f_0000;

// Control register bits, under their names in the Intel manuals.
pub const CR0_PE: u64 = 0x1;

pub const CR0_MP: u64 = 0x2;

pub const CR0_ET: u64 = 0x10;

pub const CR0_NE: u64 = 0x20;

pub const CR0_PG: u64 = 0x8000_0000;

pub const CR4_PAE: u64 = 0x20;

pub const CR4_OSFXSR: u64 = 0x200;

pub const CR4_OSXMMEXCPT: u64 = 0x400;

pub const EFER_LME: u64 = 0x100;

pub const EFER_LMA: u64 = 0x400;

/// A segment register with its hidden part. The fields carry the names of the
/// KVM interface.
#[derive(Debug, Clone, Copy, PartialEq, Eq, Structural)]
pub struct SegmentRegister {
    pub base: u64,
    pub limit: u32,
    pub selector: u16,
    pub type_: u8,
    pub present: u8,
    pub dpl: u8,
    pub db: u8,
    pub s: u8,
    pub l: u8,
    pub g: u8,
    pub avl: u8,
    pub unusable: u8,
}

/// The special registers that are set before the guest runs. The others keep
/// what KVM gave them.
#[derive(Debug, Clone, Copy, PartialEq, Eq, Structural)]
pub struct SpecialRegisters {
    pub cr0: u64,
    pub cr3: u64,
    pub cr4: u64,
    pub efer: u64,
    pub cs: SegmentRegister,
    /// For DS, ES, FS, GS and SS.
    pub data: SegmentRegister,
    pub tr: SegmentRegister,
}

/// The general registers that are set before the guest runs.
#[derive(Debug, Clone, Copy, PartialEq, Eq, Structural)]
pub struct EntryRegisters {
    pub rip: u64,
    pub rsp: u64,
    pub rflags: u64,
}

/// The flat 64-bit code segment: execute/read, accessed.
pub open spec fn flat_code() -> SegmentRegister {
    SegmentRegister {
        base: 0,
        limit: 0xfffff,
        selector: 0x8,
        type_: 0xb,
        present: 1,
        dpl: 0,
        db: 0,
        s: 1,
        l: 1,
        g: 1,
        avl: 0,
        unusable: 0,
    }
}

/// The flat data segment: read/write, accessed.
pub open spec fn flat_data() -> SegmentRegister {
    SegmentRegister {
        base: 0,
        limit: 0xfffff,
        selector: 0x10,
        type_: 0x3,
        present: 1,
        dpl: 0,
        db: 1,
        s: 1,
        l: 0,
        g: 1,
        avl: 0,
        unusable: 0,
    }
}

/// A busy 64-bit TSS.
pub open spec fn busy_task() -> SegmentRegister {
    SegmentRegister {
        base: 0,
        limit: 0xfffff,
        selector: 0x18,
        type_: 0xb,
        present: 1,
        dpl: 0,
        db: 0,
        s: 0,
        l: 0,
        g: 1,
        avl: 0,
        unusable: 0,
    }
}

/// Code: execute/read, accessed, 64-bit.
pub fn code_segment() -> (segment: SegmentRegister)
    ensures
        segment == flat_code(),
        segment.base == 0 && segment.limit == 0xfffff && segment.selector == 0x8,
        segment.type_ == 0xb && segment.s == 1 && segment.l == 1 && segment.db == 0,
        segment.dpl == 0 && segment.present == 1 && segment.g == 1,
        segment.avl == 0 && segment.unusable == 0,
{
    SegmentRegister {
        base: 0,
        limit: 0xfffff,
        selector: 0x8,
        type_: 0xb,
        present: 1,
        dpl: 0,
        db: 0,
        s: 1,
        l: 1,
        g: 1,
        avl: 0,
        unusable: 0,
    }
}

/// Data: read/write, accessed.
pub fn data_segment() -> (segment: SegmentRegister)
    ensures
        segment == flat_data(),
        segment.base == 0 && segment.limit == 0xfffff && segment.selector == 0x10,
        segment.type_ == 0x3 && segment.s == 1 && segment.l == 0 && segment.db == 1,
        segment.dpl == 0 && segment.present == 1 && segment.g == 1,
        segment.avl == 0 && segment.unusable == 0,
{
    SegmentRegister {
        base: 0,
        limit: 0xfffff,
        selector: 0x10,
        type_: 0x3,
        present: 1,
        dpl: 0,
        db: 1,
        s: 1,
        l: 0,
        g: 1,
        avl: 0,
        unusable: 0,
    }
}

/// The task register: in long mode VMX wants a busy 64-bit TSS there.
pub fn task_segment() -> (segment: SegmentRegister)
    ensures
        segment == busy_task(),
        segment.base == 0 && segment.limit == 0xfffff && segment.selector == 0x18,
        segment.type_ == 0xb && segment.s == 0 && segment.l == 0 && segment.db == 0,
        segment.dpl == 0 && segment.present == 1 && segment.g == 1,
        segment.avl == 0 && segment.unusable == 0,
{
    SegmentRegister {
        base: 0,
        limit: 0xfffff,
        selector: 0x18,
        type_: 0xb,
        present: 1,
        dpl: 0,
        db: 0,
        s: 0,
        l: 0,
        g: 1,
        avl: 0,
        unusable: 0,
    }
}

/// Bit number `n` of a register is set.
pub open spec fn bit_set(value: u64, n: u64) -> bool {
    (value >> n) & 1 == 1
}

/// The vCPU runs 64-bit code: protected mode with paging, physical address
/// extension, long mode enabled and active, and a 64-bit code segment.
pub open spec fn long_mode(regs: SpecialRegisters) -> bool {
    &&& bit_set(regs.cr0, 0) && bit_set(regs.cr0, 31)
    &&& bit_set(regs.cr4, 5)
    &&& bit_set(regs.efer, 8) && bit_set(regs.efer, 10)
    &&& regs.cs.s == 1 && regs.cs.l == 1 && regs.cs.db == 0 && regs.cs.present == 1
}

/// SSE instructions and their exceptions are enabled, and not emulated away.
pub open spec fn sse_enabled(regs: SpecialRegisters) -> bool {
    &&& bit_set(regs.cr4, 9) && bit_set(regs.cr4, 10)
    &&& bit_set(regs.cr0, 1) && !bit_set(regs.cr0, 2)
}

/// The vCPU runs at the highest privilege, in flat segments that can be used: code
/// and data start at address 0 and reach to the end of the address space, in units
/// of pages, and the task register holds a busy task segment.
pub open spec fn ring_zero(regs: SpecialRegisters) -> bool {
    &&& regs.cs.dpl == 0 && regs.data.dpl == 0 && regs.cs.selector % 4 == 0 && regs.data.selector
        % 4 == 0
    &&& regs.cs.base == 0 && regs.data.base == 0
    &&& regs.cs.limit == 0xfffff && regs.data.limit == 0xfffff
    &&& regs.cs.g == 1 && regs.data.g == 1
    &&& regs.cs.present == 1 && regs.data.present == 1 && regs.tr.present == 1
    &&& regs.cs.unusable == 0 && regs.data.unusable == 0 && regs.tr.unusable == 0
    &&& regs.data.s == 1 && regs.data.type_ == 3
    &&& regs.tr.s == 0 && regs.tr.type_ == 0xb
}

/// The values of the special registers: PE, MP, ET, NE and PG in CR0, the page
/// tables in CR3, PAE, OSFXSR and OSXMMEXCPT in CR4, LME and LMA in EFER.
pub open spec fn boot_special() -> SpecialRegisters {
    SpecialRegisters {
        cr0: 0x8000_0033,
        cr3: PML4_ADDR,
        cr4: 0x620,
        efer: 0x500,
        cs: flat_code(),
        data: flat_data(),
        tr: busy_task(),
    }
}

/// The special registers of a vCPU that starts in long mode, with paging through
/// the page tables in guest memory.
pub fn special_registers() -> (regs: SpecialRegisters)
    ensures
        regs == boot_special(),
        long_mode(regs),
        sse_enabled(regs),
        ring_zero(regs),
        regs.cr0 == 0x8000_0033 && regs.cr3 == 0x1000 && regs.cr4 == 0x620 && regs.efer == 0x500,
        regs.cs.dpl == 0 && regs.data.dpl == 0 && regs.tr.dpl == 0,
        regs.cs.base == 0 && regs.data.base == 0 && regs.tr.base == 0,
        regs.cs.limit == 0xfffff && regs.data.limit == 0xfffff && regs.tr.limit == 0xfffff,
        regs.cs.selector == 0x8 && regs.data.selector == 0x10 && regs.tr.selector == 0x18,
        regs.cs.type_ == 0xb && regs.data.type_ == 0x3 && regs.tr.type_ == 0xb,
        regs.cs.s == 1 && regs.data.s == 1 && regs.tr.s == 0,
        regs.cs.l == 1 && regs.data.l == 0 && regs.tr.l == 0,
        regs.cs.db == 0 && regs.data.db == 1 && regs.tr.db == 0,
        regs.cs.g == 1 && regs.data.g == 1 && regs.tr.g == 1,
        regs.cs.present == 1 && regs.data.present == 1 && regs.tr.present == 1,
        regs.cs.unusable == 0 && regs.data.unusable == 0 && regs.tr.unusable == 0,
{
    assert(0x1u64 | 0x2u64 | 0x10u64 | 0x20u64 | 0x8000_0000u64 == 0x8000_0033u64) by (bit_vector);
    assert(0x20u64 | 0x200u64 | 0x400u64 == 0x620u64) by (bit_vector);
    assert(0x100u64 | 0x400u64 == 0x500u64) by (bit_vector);
    proof {
        assert((0x8000_0033u64 >> 0u64) & 1 == 1 && (0x8000_0033u64 >> 1u64) & 1 == 1
            && (0x8000_0033u64 >> 2u64) & 1 == 0 && (0x8000_0033u64 >> 31u64) & 1 == 1)
            by (bit_vector);
        assert((0x620u64 >> 5u64) & 1 == 1 && (0x620u64 >> 9u64) & 1 == 1 && (0x620u64 >> 10u64) & 1
            == 1) by (bit_vector);
        assert((0x500u64 >> 8u64) & 1 == 1 && (0x500u64 >> 10u64) & 1 == 1) by (bit_vector);
    }
    SpecialRegisters {
        cr0: CR0_PE | CR0_MP | CR0_ET | CR0_NE | CR0_PG,
        cr3: PML4_ADDR,
        cr4: CR4_PAE | CR4_OSFXSR | CR4_OSXMMEXCPT,
        efer: EFER_LME | EFER_LMA,
        cs: code_segment(),
        data: data_segment(),
        tr: task_segment(),
    }
}

/// The general registers of a vCPU that starts at `entry`. Bit 1 of the flags
/// has to be set; interrupts stay off.
pub fn entry_registers(entry: u64) -> (regs: EntryRegisters)
    ensures
        regs == (EntryRegisters { rip: entry, rsp: STACK_TOP, rflags: 0x2 }),
        regs.rip == entry && regs.rsp == 0x1f_0000 && regs.rflags == 2,
{
    EntryRegisters { rip: entry, rsp: STACK_TOP, rflags: 0x2 }
}

/// What the vCPU is given before it runs for the first time.
#[derive(Debug, Clone, Copy, PartialEq, Eq, Structural)]
pub struct BootState {
    pub special: SpecialRegisters,
    pub entry: EntryRegisters,
}

/// Makes a machine ready to run: page tables and kernel in memory, and the
/// registers that the vCPU starts with.
pub fn prepare(ram: &mut [u8], kernel: &[u8]) -> (ready: Result<BootState, LoadError>)
    requires
        0x4000 <= old(ram)@.len(),
    ensures
        match object_file(kernel@) {
            None => {
                &&& ready == Err::<BootState, LoadError>(LoadError::Parse)
                &&& final(ram)@ == with_page_tables(old(ram)@)
            },
            Some(file) => {
                let (loaded, failed) = place(with_page_tables(old(ram)@), file.0);
                &&& final(ram)@ == loaded
                &&& ready == match failed {
                    None => Ok::<BootState, LoadError>(
                        BootState {
                            special: boot_special(),
                            entry: EntryRegisters { rip: file.1, rsp: STACK_TOP, rflags: 0x2 },
                        },
                    ),
                    Some(error) => Err::<BootState, LoadError>(error),
                }
            },
        },
        ready matches Ok(state) ==> {
            &&& long_mode(state.special) && sse_enabled(state.special) && ring_zero(state.special)
            &&& state.special.cr0 == 0x8000_0033 && state.special.cr3 == 0x1000
            &&& state.special.cr4 == 0x620 && state.special.efer == 0x500
            &&& state.special.cs.dpl == 0 && state.special.data.dpl == 0
            &&& state.special.cs.selector == 0x8 && state.special.data.selector == 0x10
            &&& state.entry.rsp == 0x1f_0000 && state.entry.rflags == 2
        },
        object_file(kernel@) matches Some(file) ==> elf64(kernel@) ==> file.1 as nat == word(
            kernel@,
            24,
            8,
        ),
        object_file(kernel@) matches Some(file) ==> elf64(kernel@) && word(kernel@, 56, 2) != 0xffff
            ==> file.0 == elf_segments(kernel@, elf_header_count(kernel@)),
        ready matches Ok(state) ==> elf64(kernel@) ==> state.entry.rip as nat == word(
            kernel@,
            24,
            8,
        ),
        ready is Ok && elf64(kernel@) && word(kernel@, 56, 2) != 0xffff ==> final(ram)@ == place(
            with_page_tables(old(ram)@),
            elf_segments(kernel@, elf_header_count(kernel@)),
        ).0,
{
    write_page_tables(ram);
    match load_kernel(ram, kernel) {
        Ok(start) => Ok(
            BootState { special: special_registers(), entry: entry_registers(start) },
        ),
        Err(error) => Err(error),
    }
}

/// The registers that a machine starts with put the vCPU in 64-bit long mode with
/// paging and SSE, in ring 0, with usable flat segments.
pub proof fn law_starts_in_ring_zero()
    ensures
        boot_special().cr0 == 0x8000_0033 && boot_special().cr3 == 0x1000,
        boot_special().cr4 == 0x620 && boot_special().efer == 0x500,
        boot_special().cs == (SegmentRegister {
            base: 0,
            limit: 0xfffff,
            selector: 0x8,
            type_: 0xb,
            present: 1,
            dpl: 0,
            db: 0,
            s: 1,
            l: 1,
            g: 1,
            avl: 0,
            unusable: 0,
        }),
        boot_special().data == (SegmentRegister {
            selector: 0x10,
            type_: 0x3,
            db: 1,
            l: 0,
            ..boot_special().cs
        }),
        boot_special().tr == (SegmentRegister { selector: 0x18, s: 0, l: 0, ..boot_special().cs }),
        ring_zero(boot_special()),
        STACK_TOP == 0x1f_0000,
{
}

} // verus!
