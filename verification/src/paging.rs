//! The guest's page tables: an identity map of the first GiB in pages of 2 MiB.

use crate::memory::write_u64;
use vstd::prelude::*;

use crate::le::{le_bytes, lemma_le_bytes_len};
use crate::memory::{law_read_back_u64, law_write_elsewhere, lemma_word_same, splice_u64, word};

verus! {

// One page each, below the kernel.
pub const PML4_ADDR: u64 = 0x1000;

pub const PDPT_ADDR: u64 = 0x2000;

pub const PD_ADDR: u64 = 0x3000;

pub const PTE_PRESENT: u64 = 0x1;

pub const PTE_WRITABLE: u64 = 0x2;

pub const PTE_HUGE: u64 = 0x80;

/// What the hardware makes of an entry: not present, a table further down, or a
/// page that it maps itself.
pub enum Entry {
    Absent,
    Table { addr: nat, writable: bool },
    Page { addr: nat, writable: bool },
}

/// Reads an entry of one of the upper three levels. Bit 0 says that it is present,
/// bit 1 that it may be written through, bit 7 that it maps a page; the address
/// stands in bits 12 to 51.
pub open spec fn decode(entry: nat) -> Entry {
    let writable = (entry / 2) % 2 == 1;
    let addr = entry % 0x10_0000_0000_0000 / 0x1000 * 0x1000;
    if entry % 2 == 0 {
        Entry::Absent
    } else if (entry / 0x80) % 2 == 1 {
        Entry::Page { addr, writable }
    } else {
        Entry::Table { addr, writable }
    }
}

/// Entry number `index` of the table at `table`.
pub open spec fn entry_of(ram: Seq<u8>, table: int, index: int) -> Entry {
    decode(word(ram, table + 8 * index, 8))
}

/// The address `va` in a page of `size` bytes that an entry maps to `addr`.
pub open spec fn in_page(addr: nat, size: int, va: int) -> int {
    addr as int / size * size + va % size
}

/// Where the walk from `cr3` takes a virtual address, and whether it may be
/// written: through the four levels of tables, or fewer where a page of 1 GiB or
/// of 2 MiB ends the walk early. Addresses are taken to have 48 bits. An entry of
/// the top level that claims to be a page maps nothing; at the lowest level bit 7
/// has another meaning, and every entry that is present maps a page.
pub open spec fn translate(ram: Seq<u8>, cr3: int, va: int) -> Option<(int, bool)> {
    match entry_of(ram, cr3, (va / 0x80_0000_0000) % 512) {
        Entry::Table { addr: pdpt, writable: w4 } => match entry_of(
            ram,
            pdpt as int,
            (va / 0x4000_0000) % 512,
        ) {
            Entry::Absent => None,
            Entry::Page { addr, writable: w3 } => Some(
                (in_page(addr, 0x4000_0000, va), w4 && w3),
            ),
            Entry::Table { addr: pd, writable: w3 } => match entry_of(
                ram,
                pd as int,
                (va / 0x20_0000) % 512,
            ) {
                Entry::Absent => None,
                Entry::Page { addr, writable: w2 } => Some(
                    (in_page(addr, 0x20_0000, va), w4 && w3 && w2),
                ),
                Entry::Table { addr: pt, writable: w2 } => match entry_of(
                    ram,
                    pt as int,
                    (va / 0x1000) % 512,
                ) {
                    Entry::Absent => None,
                    Entry::Page { addr, writable: w1 } => Some(
                        (in_page(addr, 0x1000, va), w4 && w3 && w2 && w1),
                    ),
                    Entry::Table { addr, writable: w1 } => Some(
                        (in_page(addr, 0x1000, va), w4 && w3 && w2 && w1),
                    ),
                },
            },
        },
        _ => None,
    }
}

/// The entry that maps 2 MiB page number `i` to itself.
pub open spec fn page_entry(i: int) -> int {
    i * 0x20_0000 + 0x83
}

/// Memory with the first `n` entries of the page directory filled in.
pub open spec fn with_directory(ram: Seq<u8>, n: nat) -> Seq<u8>
    decreases n,
{
    if n == 0 {
        ram
    } else {
        splice_u64(
            with_directory(ram, (n - 1) as nat),
            PD_ADDR + 8 * (n - 1),
            page_entry(n - 1) as u64,
        )
    }
}

/// Memory with the page tables filled in: one entry in each of the upper two
/// tables, all 512 in the page directory.
pub open spec fn with_page_tables(ram: Seq<u8>) -> Seq<u8> {
    with_directory(
        splice_u64(splice_u64(ram, PML4_ADDR as int, 0x2003), PDPT_ADDR as int, 0x3003),
        512,
    )
}

/// Identity-maps the first GiB with 2 MiB pages.
pub fn write_page_tables(ram: &mut [u8])
    requires
        0x4000 <= old(ram)@.len(),
    ensures
        final(ram)@ == with_page_tables(old(ram)@),
{
    assert(0x2000u64 | 1u64 | 2u64 == 0x2003u64) by (bit_vector);
    assert(0x3000u64 | 1u64 | 2u64 == 0x3003u64) by (bit_vector);
    write_u64(ram, PML4_ADDR, PDPT_ADDR | PTE_PRESENT | PTE_WRITABLE);
    write_u64(ram, PDPT_ADDR, PD_ADDR | PTE_PRESENT | PTE_WRITABLE);
    let ghost upper = ram@;
    let mut i: u64 = 0;
    while i < 512
        invariant
            i <= 512,
            0x4000 <= upper.len(),
            ram@.len() == upper.len(),
            ram@ == with_directory(upper, i as nat),
        decreases 512 - i,
    {
        assert((i << 21) | 1 | 2 | 0x80 == i * 0x20_0000 + 0x83) by (bit_vector)
            requires
                i < 512,
        ;
        write_u64(ram, PD_ADDR + i * 8, (i << 21) | PTE_PRESENT | PTE_WRITABLE | PTE_HUGE);
        i = i + 1;
    }
}

proof fn lemma_directory_rest(ram: Seq<u8>, n: nat, addr: int)
    ensures
        with_directory(ram, n).len() == ram.len(),
        0 <= addr < ram.len() && !(PD_ADDR <= addr < PD_ADDR + 8 * n) ==> with_directory(
            ram,
            n,
        )[addr] == ram[addr],
    decreases n,
{
    if n > 0 {
        lemma_directory_rest(ram, (n - 1) as nat, addr);
        lemma_le_bytes_len(page_entry(n - 1) as u64 as nat, 8);
    }
}

proof fn lemma_directory(ram: Seq<u8>, n: nat, i: int)
    requires
        0x4000 <= ram.len(),
        0 <= i < n <= 512,
    ensures
        word(with_directory(ram, n), PD_ADDR + 8 * i, 8) == page_entry(i),
    decreases n,
{
    let inner = with_directory(ram, (n - 1) as nat);
    let last = PD_ADDR + 8 * (n - 1);
    let value = page_entry(n - 1) as u64;
    lemma_directory_rest(ram, (n - 1) as nat, 0);
    if i == n - 1 {
        law_read_back_u64(inner, last, value);
    } else {
        lemma_directory(ram, (n - 1) as nat, i);
        lemma_le_bytes_len(value as nat, 8);
        law_write_elsewhere(inner, last, le_bytes(value as nat, 8), PD_ADDR + 8 * i, 8);
    }
}

/// Filling in the page tables keeps the size of memory.
pub proof fn lemma_table_size(ram: Seq<u8>)
    ensures
        with_page_tables(ram).len() == ram.len(),
{
    let two = splice_u64(splice_u64(ram, PML4_ADDR as int, 0x2003), PDPT_ADDR as int, 0x3003);
    lemma_directory_rest(two, 512, 0);
}

/// What stands in the two upper tables.
proof fn lemma_upper_tables(ram: Seq<u8>)
    requires
        0x4000 <= ram.len(),
    ensures
        with_page_tables(ram).len() == ram.len(),
        word(with_page_tables(ram), PML4_ADDR as int, 8) == 0x2003,
        word(with_page_tables(ram), PDPT_ADDR as int, 8) == 0x3003,
{
    let one = splice_u64(ram, PML4_ADDR as int, 0x2003);
    let two = splice_u64(one, PDPT_ADDR as int, 0x3003);
    lemma_le_bytes_len(0x3003, 8);
    law_read_back_u64(ram, PML4_ADDR as int, 0x2003);
    law_read_back_u64(one, PDPT_ADDR as int, 0x3003);
    law_write_elsewhere(one, PDPT_ADDR as int, le_bytes(0x3003, 8), PML4_ADDR as int, 8);
    lemma_directory_rest(two, 512, 0);
    assert forall|k: int| 0 <= k < PD_ADDR implies #[trigger] with_page_tables(ram)[k]
        == two[k] by {
        lemma_directory_rest(two, 512, k);
    }
    lemma_word_same(with_page_tables(ram), two, PML4_ADDR as int, 8);
    lemma_word_same(with_page_tables(ram), two, PDPT_ADDR as int, 8);
}

/// Where the three entries on its way are in place, an address is mapped to
/// itself.
proof fn lemma_walk(ram: Seq<u8>, va: int)
    requires
        0 <= va < 0x4000_0000,
        word(ram, PML4_ADDR as int, 8) == 0x2003,
        word(ram, PDPT_ADDR as int, 8) == 0x3003,
        word(ram, PD_ADDR + 8 * (va / 0x20_0000), 8) == page_entry(va / 0x20_0000),
    ensures
        translate(ram, PML4_ADDR as int, va) == Some((va, true)),
{
    let i = va / 0x20_0000;
    assert((va / 0x80_0000_0000) % 512 == 0);
    assert((va / 0x4000_0000) % 512 == 0);
    assert((va / 0x20_0000) % 512 == i);
    let e = page_entry(i);
    assert(decode(e as nat) == (Entry::Page { addr: (i * 0x20_0000) as nat, writable: true })) by {
        assert(e % 2 == 1);
        assert((e / 2) % 2 == 1);
        assert((e / 0x80) % 2 == 1);
        assert(e % 0x10_0000_0000_0000 == e);
        assert(e / 0x1000 * 0x1000 == i * 0x20_0000);
    }
    assert(decode(0x2003) == (Entry::Table { addr: 0x2000, writable: true }));
    assert(decode(0x3003) == (Entry::Table { addr: 0x3000, writable: true }));
}

/// Every address of the first GiB is mapped to itself and may be written,
/// whatever memory held before.
pub proof fn law_identity_map(ram: Seq<u8>, va: int)
    requires
        0x4000 <= ram.len(),
        0 <= va < 0x4000_0000,
    ensures
        translate(with_page_tables(ram), PML4_ADDR as int, va) == Some((va, true)),
{
    let upper = splice_u64(splice_u64(ram, PML4_ADDR as int, 0x2003), PDPT_ADDR as int, 0x3003);
    lemma_upper_tables(ram);
    lemma_directory(upper, 512, va / 0x20_0000);
    lemma_walk(with_page_tables(ram), va);
}

/// In memory that starts out zero nothing but the first GiB is mapped: the walk of
/// any other address ends at an entry that is not present, in the top level or in
/// the one table below it.
pub proof fn law_nothing_else_mapped(ram: Seq<u8>, va: int)
    requires
        0x4000 <= ram.len(),
        forall|k: int| 0 <= k < 0x4000 ==> ram[k] == 0,
        0x4000_0000 <= va < 0x1_0000_0000_0000,
    ensures
        translate(with_page_tables(ram), PML4_ADDR as int, va) is None,
        ({
            let tables = with_page_tables(ram);
            let first = entry_of(tables, PML4_ADDR as int, (va / 0x80_0000_0000) % 512);
            ||| first is Absent
            ||| first matches Entry::Table { addr, writable: _ } && entry_of(
                tables,
                addr as int,
                (va / 0x4000_0000) % 512,
            ) is Absent
        }),
{
    lemma_upper_tables(ram);
    let i4 = (va / 0x80_0000_0000) % 512;
    let i3 = (va / 0x4000_0000) % 512;
    assert(decode(0x2003) == (Entry::Table { addr: 0x2000, writable: true }));
    if i4 > 0 {
        lemma_empty_entry(ram, PML4_ADDR + 8 * i4);
    } else {
        assert(i3 > 0);
        lemma_empty_entry(ram, PDPT_ADDR + 8 * i3);
    }
}

proof fn lemma_empty_entry(ram: Seq<u8>, addr: int)
    requires
        0x4000 <= ram.len(),
        forall|k: int| 0 <= k < 0x4000 ==> ram[k] == 0,
        PML4_ADDR + 8 <= addr <= PDPT_ADDR - 8 || PDPT_ADDR + 8 <= addr <= PD_ADDR - 8,
    ensures
        word(with_page_tables(ram), addr, 8) == 0,
{
    let done = with_page_tables(ram);
    lemma_upper_tables(ram);
    assert forall|k: int| addr <= k < addr + 8 implies #[trigger] done[k] == 0 by {
        law_tables_stay_inside(ram, k);
    }
    let bytes = done.subrange(addr, addr + 8);
    assert(bytes =~= Seq::new(8, |i: int| 0u8));
    lemma_zero_value(8);
}

proof fn lemma_zero_value(n: nat)
    ensures
        crate::le::le_value(Seq::new(n, |i: int| 0u8)) == 0,
    decreases n,
{
    if n > 0 {
        lemma_zero_value((n - 1) as nat);
        assert(Seq::new(n, |i: int| 0u8).drop_first() =~= Seq::new((n - 1) as nat, |i: int| 0u8));
    }
}

/// Filling in the page tables changes only their first entries and the page
/// directory, so nothing outside the three pages.
pub proof fn law_tables_stay_inside(ram: Seq<u8>, addr: int)
    requires
        0 <= addr < ram.len(),
        !(PML4_ADDR <= addr < PML4_ADDR + 8),
        !(PDPT_ADDR <= addr < PDPT_ADDR + 8),
        !(PD_ADDR <= addr < PD_ADDR + 0x1000),
    ensures
        with_page_tables(ram)[addr] == ram[addr],
{
    let two = splice_u64(splice_u64(ram, PML4_ADDR as int, 0x2003), PDPT_ADDR as int, 0x3003);
    lemma_directory_rest(two, 512, addr);
    lemma_le_bytes_len(0x2003, 8);
    lemma_le_bytes_len(0x3003, 8);
}

/// The identity map holds as long as the three pages of tables are left alone.
pub proof fn law_identity_map_lasts(ram: Seq<u8>, later: Seq<u8>, va: int)
    requires
        0x4000 <= ram.len(),
        later.len() == ram.len(),
        forall|k: int|
            PML4_ADDR <= k < PD_ADDR + 0x1000 ==> #[trigger] later[k] == with_page_tables(ram)[k],
        0 <= va < 0x4000_0000,
    ensures
        translate(later, PML4_ADDR as int, va) == Some((va, true)),
{
    let done = with_page_tables(ram);
    let upper = splice_u64(splice_u64(ram, PML4_ADDR as int, 0x2003), PDPT_ADDR as int, 0x3003);
    lemma_upper_tables(ram);
    lemma_directory(upper, 512, va / 0x20_0000);
    lemma_word_same(later, done, PML4_ADDR as int, 8);
    lemma_word_same(later, done, PDPT_ADDR as int, 8);
    lemma_word_same(later, done, PD_ADDR + 8 * (va / 0x20_0000), 8);
    lemma_walk(later, va);
}

/// Every entry of the tables, as a number: the two upper tables lead to the next
/// one, present and writable, and entry `i` of the page directory maps page `i` of
/// 2 MiB to itself, present and writable, for the kernel alone.
pub proof fn law_table_entries(ram: Seq<u8>, i: int)
    requires
        0x4000 <= ram.len(),
        0 <= i < 512,
    ensures
        with_page_tables(ram).len() == ram.len(),
        word(with_page_tables(ram), 0x1000, 8) == 0x2003,
        word(with_page_tables(ram), 0x2000, 8) == 0x3003,
        word(with_page_tables(ram), 0x3000 + 8 * i, 8) == 0x20_0000 * i + 0x83,
{
    let upper = splice_u64(splice_u64(ram, PML4_ADDR as int, 0x2003), PDPT_ADDR as int, 0x3003);
    lemma_upper_tables(ram);
    lemma_directory(upper, 512, i);
}

} // verus!
