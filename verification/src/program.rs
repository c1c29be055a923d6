//! Loading a static Linux program that the host has put into guest memory.
//!
//! The image lies at an address that host and guest agree on: its length in
//! eight bytes, eight bytes of padding, then the ELF file.

use crate::memory::{clear_bytes, read_bytes, read_u16, read_u32, read_u64, write_bytes, write_u64};
use vstd::prelude::*;

use crate::memory::{
    in_ram, law_read_back_u64, law_word_bytes, law_write_elsewhere, lemma_word_same, splice, splice_u64,
    word, zeros,
};

verus! {

/// The end of the region into which programs are linked, and of their heap.
pub const BRK_MAX: u64 = 0x00e0_0000;

/// Bytes between the start of the image's place and the ELF file.
pub const IMAGE_OFFSET: u64 = 16;

/// What a program starts from.
#[derive(Debug, Clone, Copy, PartialEq, Eq, Structural)]
pub struct LoadedElf {
    pub entry: u64,
    pub phdr_vaddr: u64,
    pub phent: u64,
    pub phnum: u64,
    pub brk_start: u64,
}

/// Why a program could not be loaded.
#[derive(Debug, Clone, Copy, PartialEq, Eq, Structural)]
pub enum ProgramError {
    /// The image has length zero.
    NoImage,
    /// The image does not start with the ELF magic number.
    NotElf,
    /// The file is not of type `ET_EXEC`.
    NotExec,
    /// A segment reaches beyond the program region.
    SegmentOutside,
    /// A header or a segment's data lies outside memory, or a segment holds
    /// more in the file than in memory.
    Fault,
}

impl ProgramError {
    /// What the kernel says when it gives up.
    pub fn message(&self) -> (m: &'static str)
        ensures
            m@ == match self {
                ProgramError::NoImage =>
                    "no program image; run: vmm <kernel> <static-linux-elf>"@,
                ProgramError::NotElf => "not an ELF"@,
                ProgramError::NotExec => "not ET_EXEC; build with -static -no-pie"@,
                ProgramError::SegmentOutside => "segment outside program region"@,
                ProgramError::Fault => "program image reaches outside memory"@,
            },
    {
        match self {
            ProgramError::NoImage => "no program image; run: vmm <kernel> <static-linux-elf>",
            ProgramError::NotElf => "not an ELF",
            ProgramError::NotExec => "not ET_EXEC; build with -static -no-pie",
            ProgramError::SegmentOutside => "segment outside program region",
            ProgramError::Fault => "program image reaches outside memory",
        }
    }
}

/// The fields of a program header that loading depends on.
pub struct ProgramHeader {
    pub kind: nat,
    pub offset: nat,
    pub vaddr: nat,
    pub filesz: nat,
    pub memsz: nat,
}

/// The program header at `ph`.
pub open spec fn header_at(ram: Seq<u8>, ph: int) -> ProgramHeader {
    ProgramHeader {
        kind: word(ram, ph, 4),
        offset: word(ram, ph + 8, 8),
        vaddr: word(ram, ph + 16, 8),
        filesz: word(ram, ph + 32, 8),
        memsz: word(ram, ph + 40, 8),
    }
}

/// The least multiple of the page size that is not below `n`.
pub open spec fn page_up(n: int) -> int {
    (n + 0xfff) / 0x1000 * 0x1000
}

/// How far loading has come.
pub struct Loading {
    pub ram: Seq<u8>,
    pub phdr_vaddr: nat,
    pub brk_start: nat,
}

/// The data of a segment can be read, and is no larger than the segment.
pub open spec fn data_readable(ram: Seq<u8>, image: int, h: ProgramHeader) -> bool {
    &&& h.filesz <= h.memsz
    &&& image + h.offset <= u64::MAX
    &&& h.filesz > 0 ==> in_ram(ram, image + h.offset, h.filesz as int)
}

/// Memory with a segment put at its link address and its tail cleared.
pub open spec fn with_segment(ram: Seq<u8>, image: int, h: ProgramHeader) -> Seq<u8> {
    splice(
        splice(ram, h.vaddr as int, Seq::new(h.filesz, |i: int| ram[image + h.offset + i])),
        (h.vaddr + h.filesz) as int,
        zeros((h.memsz - h.filesz) as nat),
    )
}

/// What the program header at `ph` makes of the loading so far. `PT_PHDR` (6)
/// says where the headers are in memory; failing that, the first `PT_LOAD` (1)
/// segment whose data holds the headers does.
pub open spec fn load_one(st: Loading, image: int, phoff: int, ph: int) -> Result<
    Loading,
    ProgramError,
> {
    let h = header_at(st.ram, ph);
    if !in_ram(st.ram, ph, 48) {
        Err(ProgramError::Fault)
    } else if h.kind == 6 {
        Ok(Loading { phdr_vaddr: h.vaddr, ..st })
    } else if h.kind != 1 {
        Ok(st)
    } else if h.vaddr + h.memsz > BRK_MAX {
        Err(ProgramError::SegmentOutside)
    } else if !data_readable(st.ram, image, h) {
        Err(ProgramError::Fault)
    } else {
        Ok(
            Loading {
                ram: with_segment(st.ram, image, h),
                phdr_vaddr: if st.phdr_vaddr == 0 && h.offset <= phoff < h.offset + h.filesz {
                    (h.vaddr + phoff - h.offset) as nat
                } else {
                    st.phdr_vaddr
                },
                brk_start: if page_up((h.vaddr + h.memsz) as int) > st.brk_start {
                    page_up((h.vaddr + h.memsz) as int) as nat
                } else {
                    st.brk_start
                },
            },
        )
    }
}

/// The headers from number `i` to number `n`, in order, up to the first that
/// fails.
pub open spec fn load_all(
    st: Loading,
    image: int,
    phoff: int,
    phent: int,
    n: int,
    i: int,
) -> (Loading, Option<ProgramError>)
    decreases n - i,
{
    if i >= n {
        (st, None)
    } else {
        match load_one(st, image, phoff, image + phoff + i * phent) {
            Err(error) => (st, Some(error)),
            Ok(next) => load_all(next, image, phoff, phent, n, i + 1),
        }
    }
}

/// Memory and result of loading the image at `program_addr`.
pub open spec fn loaded(ram: Seq<u8>, program_addr: int) -> (
    Seq<u8>,
    Result<LoadedElf, ProgramError>,
) {
    let image = program_addr + IMAGE_OFFSET;
    let phoff = word(ram, image + 32, 8) as int;
    let phent = word(ram, image + 54, 2) as int;
    let phnum = word(ram, image + 56, 2) as int;
    if word(ram, program_addr, 8) == 0 {
        (ram, Err(ProgramError::NoImage))
    } else if word(ram, image, 4) != 0x464c_457f {
        (ram, Err(ProgramError::NotElf))
    } else if word(ram, image + 16, 2) != 2 {
        (ram, Err(ProgramError::NotExec))
    } else {
        let (st, failed) = load_all(
            Loading { ram, phdr_vaddr: 0, brk_start: 0 },
            image,
            phoff,
            phent,
            phnum,
            0,
        );
        (
            st.ram,
            match failed {
                Some(error) => Err(error),
                None => Ok(
                    LoadedElf {
                        entry: word(ram, image + 24, 8) as u64,
                        phdr_vaddr: st.phdr_vaddr as u64,
                        phent: phent as u64,
                        phnum: phnum as u64,
                        brk_start: st.brk_start as u64,
                    },
                ),
            },
        )
    }
}

/// Rounds up to a multiple of the page size.
pub fn align_page(n: u64) -> (up: u64)
    requires
        n <= u64::MAX - 0xfff,
    ensures
        up == page_up(n as int),
{
    let m: u64 = n + 0xfff;
    assert(m & !0xfffu64 == m / 0x1000 * 0x1000) by (bit_vector);
    m & !0xfff
}

/// Puts a program image where the guest looks for it.
pub fn place_program(ram: &mut [u8], program_addr: u64, image: &[u8])
    requires
        program_addr + IMAGE_OFFSET + image@.len() <= old(ram)@.len(),
    ensures
        final(ram)@ == splice(
            splice_u64(old(ram)@, program_addr as int, image@.len() as u64),
            program_addr + IMAGE_OFFSET,
            image@,
        ),
{
    assert(ram@.len() == ram.len());
    write_u64(ram, program_addr, image.len() as u64);
    write_bytes(ram, program_addr + IMAGE_OFFSET, image);
}

/// Where loading stands, apart from memory.
struct Cursor {
    phdr_vaddr: u64,
    brk_start: u64,
}

fn load_header(ram: &mut [u8], cursor: &mut Cursor, image: u64, phoff: u64, ph: u128) -> (done:
    Result<(), ProgramError>)
    requires
        BRK_MAX <= old(ram)@.len(),
        image <= old(ram)@.len(),
    ensures
        final(ram)@.len() == old(ram)@.len(),
        match load_one(
            Loading {
                ram: old(ram)@,
                phdr_vaddr: old(cursor).phdr_vaddr as nat,
                brk_start: old(cursor).brk_start as nat,
            },
            image as int,
            phoff as int,
            ph as int,
        ) {
            Err(error) => {
                &&& done == Err::<(), ProgramError>(error)
                &&& final(ram)@ == old(ram)@
                &&& *final(cursor) == *old(cursor)
            },
            Ok(next) => {
                &&& done is Ok
                &&& final(ram)@ == next.ram
                &&& final(cursor).phdr_vaddr as nat == next.phdr_vaddr
                &&& final(cursor).brk_start as nat == next.brk_start
            },
        },
{
    assert(ram@.len() == ram.len());
    let size: u128 = ram.len() as u128;
    if ph > size || size - ph < 48 {
        return Err(ProgramError::Fault);
    }
    let at: u64 = ph as u64;
    let kind: u32 = read_u32(ram, at);
    let offset: u64 = read_u64(ram, at + 8);
    let vaddr: u64 = read_u64(ram, at + 16);
    let filesz: u64 = read_u64(ram, at + 32);
    let memsz: u64 = read_u64(ram, at + 40);
    let ghost h = header_at(ram@, ph as int);
    if kind == 6 {
        cursor.phdr_vaddr = vaddr;
        return Ok(());
    }
    if kind != 1 {
        return Ok(());
    }
    if vaddr > BRK_MAX || memsz > BRK_MAX - vaddr {
        return Err(ProgramError::SegmentOutside);
    }
    if filesz > memsz || offset > u64::MAX - image {
        return Err(ProgramError::Fault);
    }
    let source: u64 = image + offset;
    if filesz > 0 && (source as u128 > size || filesz as u128 > size - source as u128) {
        return Err(ProgramError::Fault);
    }
    let ghost before = ram@;
    if filesz > 0 {
        let data: Vec<u8> = read_bytes(ram, source, filesz as usize);
        proof {
            assert(data@ =~= Seq::new(h.filesz, |i: int| before[image + h.offset + i]));
        }
        write_bytes(ram, vaddr, data.as_slice());
    } else {
        proof {
            assert(splice(
                before,
                h.vaddr as int,
                Seq::new(h.filesz, |i: int| before[image + h.offset + i]),
            ) =~= before);
        }
    }
    clear_bytes(ram, vaddr + filesz, (memsz - filesz) as usize);
    if cursor.phdr_vaddr == 0 && phoff >= offset && phoff - offset < filesz {
        cursor.phdr_vaddr = vaddr + (phoff - offset);
    }
    let end: u64 = align_page(vaddr + memsz);
    if end > cursor.brk_start {
        cursor.brk_start = end;
    }
    Ok(())
}

/// Loads the `ET_EXEC` image at `program_addr`: copies its `PT_LOAD` segments to
/// their link addresses and clears what they have beyond their data.
pub fn load_program(ram: &mut [u8], program_addr: u64) -> (elf: Result<LoadedElf, ProgramError>)
    requires
        BRK_MAX <= old(ram)@.len(),
        program_addr + IMAGE_OFFSET + 58 <= old(ram)@.len(),
    ensures
        final(ram)@ == loaded(old(ram)@, program_addr as int).0,
        elf == loaded(old(ram)@, program_addr as int).1,
        elf matches Ok(e) ==> {
            &&& e.entry as nat == word(old(ram)@, program_addr + 40, 8)
            &&& e.phent as nat == word(old(ram)@, program_addr + 70, 2)
            &&& e.phnum as nat == word(old(ram)@, program_addr + 72, 2)
        },
{
    assert(ram@.len() == ram.len());
    let ghost before = ram@;
    proof {
        if let Ok(e) = loaded(before, program_addr as int).1 {
            law_entry_of_file(before, program_addr as int, e);
        }
    }
    if read_u64(ram, program_addr) == 0 {
        return Err(ProgramError::NoImage);
    }
    let image: u64 = program_addr + IMAGE_OFFSET;
    if read_u32(ram, image) != 0x464c_457f {
        return Err(ProgramError::NotElf);
    }
    if read_u16(ram, image + 16) != 2 {
        return Err(ProgramError::NotExec);
    }
    let entry: u64 = read_u64(ram, image + 24);
    let phoff: u64 = read_u64(ram, image + 32);
    let phent: u16 = read_u16(ram, image + 54);
    let phnum: u16 = read_u16(ram, image + 56);
    let mut cursor: Cursor = Cursor { phdr_vaddr: 0, brk_start: 0 };
    let ghost start = Loading { ram: before, phdr_vaddr: 0, brk_start: 0 };
    let mut i: u16 = 0;
    while i < phnum
        invariant
            i <= phnum,
            BRK_MAX <= ram@.len(),
            image <= ram@.len(),
            ram@.len() == before.len(),
            load_all(start, image as int, phoff as int, phent as int, phnum as int, 0) == load_all(
                Loading {
                    ram: ram@,
                    phdr_vaddr: cursor.phdr_vaddr as nat,
                    brk_start: cursor.brk_start as nat,
                },
                image as int,
                phoff as int,
                phent as int,
                phnum as int,
                i as int,
            ),
            before == old(ram)@,
            start == (Loading { ram: before, phdr_vaddr: 0, brk_start: 0 }),
            loaded(before, program_addr as int).0 == load_all(
                start,
                image as int,
                phoff as int,
                phent as int,
                phnum as int,
                0,
            ).0.ram,
            match load_all(
                start,
                image as int,
                phoff as int,
                phent as int,
                phnum as int,
                0,
            ).1 {
                Some(error) => loaded(before, program_addr as int).1 == Err::<
                    LoadedElf,
                    ProgramError,
                >(error),
                None => true,
            },
        decreases phnum - i,
    {
        assert(i * phent <= 0xffff * 0xffff) by (nonlinear_arith)
            requires
                i <= 0xffff,
                phent <= 0xffff,
        ;
        let ph: u128 = image as u128 + phoff as u128 + i as u128 * phent as u128;
        match load_header(ram, &mut cursor, image, phoff, ph) {
            Err(error) => {
                return Err(error);
            },
            Ok(()) => {},
        }
        i = i + 1;
    }
    Ok(
        LoadedElf {
            entry,
            phdr_vaddr: cursor.phdr_vaddr,
            phent: phent as u64,
            phnum: phnum as u64,
            brk_start: cursor.brk_start,
        },
    )
}

/// The guest finds the image that the host placed: its length, and the file byte
/// by byte.
pub proof fn law_placed_program_found(ram: Seq<u8>, program_addr: int, image: Seq<u8>)
    requires
        in_ram(ram, program_addr, IMAGE_OFFSET + image.len()),
        image.len() <= u64::MAX,
    ensures
        ({
            let placed = splice(
                splice_u64(ram, program_addr, image.len() as u64),
                program_addr + IMAGE_OFFSET,
                image,
            );
            &&& word(placed, program_addr, 8) == image.len()
            &&& placed.subrange(
                program_addr + IMAGE_OFFSET,
                program_addr + IMAGE_OFFSET + image.len(),
            ) == image
            &&& loaded(placed, program_addr).1 == Err::<LoadedElf, ProgramError>(
                ProgramError::NoImage,
            ) <==> image.len() == 0
        }),
{
    let counted = splice_u64(ram, program_addr, image.len() as u64);
    let placed = splice(counted, program_addr + IMAGE_OFFSET, image);
    law_read_back_u64(ram, program_addr, image.len() as u64);
    law_write_elsewhere(counted, program_addr + IMAGE_OFFSET, image, program_addr, 8);
    let at = program_addr + IMAGE_OFFSET;
    assert(placed.subrange(at, at + image.len()) =~= image);
    lemma_never_no_image(
        Loading { ram: placed, phdr_vaddr: 0, brk_start: 0 },
        at,
        word(placed, at + 32, 8) as int,
        word(placed, at + 54, 2) as int,
        word(placed, at + 56, 2) as int,
        0,
    );
}

proof fn lemma_never_no_image(st: Loading, image: int, phoff: int, phent: int, n: int, i: int)
    ensures
        load_all(st, image, phoff, phent, n, i).1 != Some(ProgramError::NoImage),
    decreases n - i,
{
    if i < n {
        if let Ok(next) = load_one(st, image, phoff, image + phoff + i * phent) {
            lemma_never_no_image(next, image, phoff, phent, n, i + 1);
        }
    }
}

/// Where program header number `k` of the image at `program_addr` lies.
pub open spec fn header_addr(ram: Seq<u8>, program_addr: int, k: int) -> int {
    let image = program_addr + IMAGE_OFFSET;
    image + word(ram, image + 32, 8) + k * word(ram, image + 54, 2)
}

/// Program header number `k` of the image at `program_addr`.
pub open spec fn header(ram: Seq<u8>, program_addr: int, k: int) -> ProgramHeader {
    header_at(ram, header_addr(ram, program_addr, k))
}

/// The memory that a `PT_LOAD` header claims. One that reaches beyond the program
/// region is refused, and so claims nothing.
pub open spec fn claims(h: ProgramHeader, addr: int) -> bool {
    h.kind == 1 && h.vaddr + h.memsz <= BRK_MAX && h.vaddr <= addr < h.vaddr + h.memsz
}

/// A `PT_LOAD` header before number `k` claims the address.
pub open spec fn claimed_before(ram: Seq<u8>, program_addr: int, k: int, addr: int) -> bool {
    exists|j: int| 0 <= j < k && claims(#[trigger] header(ram, program_addr, j), addr)
}

/// No segment is put over a header that is still to be read.
pub open spec fn headers_apart(ram: Seq<u8>, program_addr: int) -> bool {
    forall|k: int, addr: int|
        0 <= k < word(ram, program_addr + IMAGE_OFFSET + 56, 2) && header_addr(
            ram,
            program_addr,
            k,
        ) <= addr < header_addr(ram, program_addr, k) + 48 ==> !#[trigger] claimed_before(
            ram,
            program_addr,
            k,
            addr,
        )
}

/// The data of header number `k` in the image holds the address.
pub open spec fn in_data(ram: Seq<u8>, program_addr: int, k: int, addr: int) -> bool {
    let h = header(ram, program_addr, k);
    program_addr + IMAGE_OFFSET + h.offset <= addr < program_addr + IMAGE_OFFSET + h.offset
        + h.filesz
}

/// No segment is put over the data of header number `k` before that data is
/// read.
pub open spec fn data_apart(ram: Seq<u8>, program_addr: int, k: int) -> bool {
    forall|addr: int|
        in_data(ram, program_addr, k, addr) ==> !#[trigger] claimed_before(
            ram,
            program_addr,
            k,
            addr,
        )
}

/// Loading of the image at `program_addr` from header number `i` on.
spec fn rest(ram: Seq<u8>, program_addr: int, st: Loading, i: int) -> (
    Loading,
    Option<ProgramError>,
) {
    let image = program_addr + IMAGE_OFFSET;
    load_all(
        st,
        image,
        word(ram, image + 32, 8) as int,
        word(ram, image + 54, 2) as int,
        word(ram, image + 56, 2) as int,
        i,
    )
}

/// Loading has come to header number `i`, and so far only what the earlier
/// headers claim has changed.
spec fn reached(ram: Seq<u8>, program_addr: int, st: Loading, i: int) -> bool {
    &&& 0 <= i
    &&& 0 <= program_addr
    &&& headers_apart(ram, program_addr)
    &&& st.ram.len() == ram.len()
    &&& forall|a: int|
        0 <= a < ram.len() && !claimed_before(ram, program_addr, i, a) ==> #[trigger] st.ram[a]
            == ram[a]
}

/// What the header at number `i` makes of the loading so far, where it does not
/// fail.
spec fn step(ram: Seq<u8>, program_addr: int, st: Loading, i: int) -> Result<
    Loading,
    ProgramError,
> {
    let image = program_addr + IMAGE_OFFSET;
    load_one(st, image, word(ram, image + 32, 8) as int, header_addr(ram, program_addr, i))
}

proof fn lemma_header_kept(ram: Seq<u8>, program_addr: int, st: Loading, i: int)
    requires
        reached(ram, program_addr, st, i),
        i < word(ram, program_addr + IMAGE_OFFSET + 56, 2),
    ensures
        0 <= header_addr(ram, program_addr, i),
        in_ram(ram, header_addr(ram, program_addr, i), 48) ==> header_at(
            st.ram,
            header_addr(ram, program_addr, i),
        ) == header(ram, program_addr, i),
{
    let ph = header_addr(ram, program_addr, i);
    let image = program_addr + IMAGE_OFFSET;
    assert(0 <= i * word(ram, image + 54, 2)) by (nonlinear_arith)
        requires
            0 <= i,
            0 <= word(ram, image + 54, 2),
    ;
    if in_ram(ram, ph, 48) {
        assert forall|a: int| ph <= a < ph + 48 implies #[trigger] st.ram[a] == ram[a] by {
            assert(!claimed_before(ram, program_addr, i, a));
        }
        lemma_word_same(st.ram, ram, ph, 4);
        lemma_word_same(st.ram, ram, ph + 8, 8);
        lemma_word_same(st.ram, ram, ph + 16, 8);
        lemma_word_same(st.ram, ram, ph + 32, 8);
        lemma_word_same(st.ram, ram, ph + 40, 8);
    }
}

proof fn lemma_step(ram: Seq<u8>, program_addr: int, st: Loading, i: int)
    requires
        reached(ram, program_addr, st, i),
        i < word(ram, program_addr + IMAGE_OFFSET + 56, 2),
        step(ram, program_addr, st, i) is Ok,
    ensures
        ({
            let next = step(ram, program_addr, st, i)->Ok_0;
            let h = header(ram, program_addr, i);
            &&& header_at(st.ram, header_addr(ram, program_addr, i)) == h
            &&& reached(ram, program_addr, next, i + 1)
            &&& rest(ram, program_addr, st, i) == rest(ram, program_addr, next, i + 1)
            &&& next.brk_start == if h.kind == 1 && page_up((h.vaddr + h.memsz) as int)
                > st.brk_start {
                page_up((h.vaddr + h.memsz) as int)
            } else {
                st.brk_start as int
            }
            &&& forall|a: int|
                0 <= a < ram.len() && !claims(h, a) ==> #[trigger] next.ram[a] == st.ram[a]
        }),
{
    lemma_header_kept(ram, program_addr, st, i);
    let next = step(ram, program_addr, st, i)->Ok_0;
    let h = header(ram, program_addr, i);
    assert forall|a: int| 0 <= a < ram.len() && !claims(h, a) implies #[trigger] next.ram[a]
        == st.ram[a] by {}
    assert forall|a: int|
        0 <= a < ram.len() && !claimed_before(ram, program_addr, i + 1, a) implies #[trigger] next.ram[a]
        == ram[a] by {
        if claims(header(ram, program_addr, i), a) {
            assert(claimed_before(ram, program_addr, i + 1, a));
        }
        if claimed_before(ram, program_addr, i, a) {
            let j = choose|j: int|
                0 <= j < i && claims(#[trigger] header(ram, program_addr, j), a);
            assert(claims(header(ram, program_addr, j), a));
            assert(claimed_before(ram, program_addr, i + 1, a));
        }
    }
}

proof fn lemma_load_all_keeps(
    st: Loading,
    image: int,
    phoff: int,
    phent: int,
    n: int,
    i: int,
    addr: int,
)
    requires
        BRK_MAX <= addr < st.ram.len(),
    ensures
        load_all(st, image, phoff, phent, n, i).0.ram.len() == st.ram.len(),
        load_all(st, image, phoff, phent, n, i).0.ram[addr] == st.ram[addr],
    decreases n - i,
{
    if i < n {
        match load_one(st, image, phoff, image + phoff + i * phent) {
            Err(_) => {},
            Ok(next) => {
                lemma_load_all_keeps(next, image, phoff, phent, n, i + 1, addr);
            },
        }
    }
}

/// Loading changes nothing from `BRK_MAX` on: the image itself, the mailbox, the
/// framebuffer, the scratch region and the program's stack stay as they were.
pub proof fn law_load_stays_below(ram: Seq<u8>, program_addr: int, addr: int)
    requires
        BRK_MAX <= addr < ram.len(),
    ensures
        loaded(ram, program_addr).0.len() == ram.len(),
        loaded(ram, program_addr).0[addr] == ram[addr],
{
    let image = program_addr + IMAGE_OFFSET;
    lemma_load_all_keeps(
        Loading { ram, phdr_vaddr: 0, brk_start: 0 },
        image,
        word(ram, image + 32, 8) as int,
        word(ram, image + 54, 2) as int,
        word(ram, image + 56, 2) as int,
        0,
        addr,
    );
}

proof fn lemma_brk(st: Loading, image: int, phoff: int, phent: int, n: int, i: int)
    requires
        st.brk_start % 0x1000 == 0,
        st.brk_start <= BRK_MAX,
    ensures
        load_all(st, image, phoff, phent, n, i).0.brk_start % 0x1000 == 0,
        load_all(st, image, phoff, phent, n, i).0.brk_start <= BRK_MAX,
    decreases n - i,
{
    if i < n {
        match load_one(st, image, phoff, image + phoff + i * phent) {
            Err(_) => {},
            Ok(next) => {
                lemma_brk(next, image, phoff, phent, n, i + 1);
            },
        }
    }
}

/// The heap of a loaded program starts on a page boundary, no later than
/// `BRK_MAX`.
pub proof fn law_brk_on_page(ram: Seq<u8>, program_addr: int, elf: LoadedElf)
    requires
        loaded(ram, program_addr).1 == Ok::<LoadedElf, ProgramError>(elf),
    ensures
        elf.brk_start % 0x1000 == 0,
        elf.brk_start <= BRK_MAX,
{
    let image = program_addr + IMAGE_OFFSET;
    lemma_brk(
        Loading { ram, phdr_vaddr: 0, brk_start: 0 },
        image,
        word(ram, image + 32, 8) as int,
        word(ram, image + 54, 2) as int,
        word(ram, image + 56, 2) as int,
        0,
    );
}

proof fn lemma_header_count(ram: Seq<u8>, image: int)
    requires
        in_ram(ram, image, 58),
    ensures
        word(ram, image + 56, 2) <= 0xffff,
{
    let bytes = ram.subrange(image + 56, image + 58);
    crate::le::lemma_le_value_bound(bytes);
    crate::le::lemma_le_limits();
}

/// The headers from number `i` on, where none fails: the heap's start covers what
/// it covered before and every segment from `i` on.
proof fn lemma_heap_covers(ram: Seq<u8>, program_addr: int, st: Loading, i: int, k: int)
    requires
        reached(ram, program_addr, st, i),
        rest(ram, program_addr, st, i).1 is None,
    ensures
        st.brk_start <= rest(ram, program_addr, st, i).0.brk_start,
        i <= k < word(ram, program_addr + IMAGE_OFFSET + 56, 2) && header(
            ram,
            program_addr,
            k,
        ).kind == 1 ==> header(ram, program_addr, k).vaddr + header(ram, program_addr, k).memsz
            <= rest(ram, program_addr, st, i).0.brk_start,
    decreases word(ram, program_addr + IMAGE_OFFSET + 56, 2) - i,
{
    if i < word(ram, program_addr + IMAGE_OFFSET + 56, 2) {
        lemma_step(ram, program_addr, st, i);
        let next = step(ram, program_addr, st, i)->Ok_0;
        lemma_heap_covers(ram, program_addr, next, i + 1, k);
    }
}

/// The headers from number `i` on, where none fails: a bound on page boundary that
/// covers what was covered before and every segment from `i` on covers the heap's
/// start.
proof fn lemma_heap_bounded(ram: Seq<u8>, program_addr: int, st: Loading, i: int, bound: int)
    requires
        reached(ram, program_addr, st, i),
        rest(ram, program_addr, st, i).1 is None,
        bound % 0x1000 == 0,
        st.brk_start <= bound,
        forall|j: int|
            i <= j < word(ram, program_addr + IMAGE_OFFSET + 56, 2) && (#[trigger] header(
                ram,
                program_addr,
                j,
            )).kind == 1 ==> header(ram, program_addr, j).vaddr + header(ram, program_addr, j).memsz
                <= bound,
    ensures
        rest(ram, program_addr, st, i).0.brk_start <= bound,
    decreases word(ram, program_addr + IMAGE_OFFSET + 56, 2) - i,
{
    if i < word(ram, program_addr + IMAGE_OFFSET + 56, 2) {
        lemma_step(ram, program_addr, st, i);
        let next = step(ram, program_addr, st, i)->Ok_0;
        let h = header(ram, program_addr, i);
        assert(next.brk_start <= bound);
        lemma_heap_bounded(ram, program_addr, next, i + 1, bound);
    }
}

/// The headers from number `i` on, where none fails: the heap's start covers what
/// it covered before and every segment from `i` on, and no more than a bound that
/// covers all of these.
proof fn lemma_heap_start(
    ram: Seq<u8>,
    program_addr: int,
    st: Loading,
    i: int,
    k: int,
    bound: int,
)
    requires
        reached(ram, program_addr, st, i),
        rest(ram, program_addr, st, i).1 is None,
    ensures
        ({
            let done = rest(ram, program_addr, st, i).0;
            let count = word(ram, program_addr + IMAGE_OFFSET + 56, 2);
            let h = header(ram, program_addr, k);
            &&& st.brk_start <= done.brk_start
            &&& i <= k < count && h.kind == 1 ==> h.vaddr + h.memsz <= done.brk_start
            &&& bound % 0x1000 == 0 && st.brk_start <= bound && (forall|j: int|
                i <= j < count && (#[trigger] header(ram, program_addr, j)).kind == 1 ==> header(
                    ram,
                    program_addr,
                    j,
                ).vaddr + header(ram, program_addr, j).memsz <= bound) ==> done.brk_start <= bound
        }),
{
    lemma_heap_covers(ram, program_addr, st, i, k);
    if bound % 0x1000 == 0 && st.brk_start <= bound && (forall|j: int|
        i <= j < word(ram, program_addr + IMAGE_OFFSET + 56, 2) && (#[trigger] header(
            ram,
            program_addr,
            j,
        )).kind == 1 ==> header(ram, program_addr, j).vaddr + header(ram, program_addr, j).memsz
            <= bound) {
        lemma_heap_bounded(ram, program_addr, st, i, bound);
    }
}

/// The heap starts at or after the end of every segment. The headers have to lie
/// outside the memory into which earlier segments are put.
pub proof fn law_brk_after_segments(ram: Seq<u8>, program_addr: int, elf: LoadedElf, k: int)
    requires
        in_ram(ram, program_addr, IMAGE_OFFSET + 58),
        headers_apart(ram, program_addr),
        loaded(ram, program_addr).1 == Ok::<LoadedElf, ProgramError>(elf),
        0 <= k < elf.phnum,
        header(ram, program_addr, k).kind == 1,
    ensures
        header(ram, program_addr, k).vaddr + header(ram, program_addr, k).memsz <= elf.brk_start,
{
    lemma_header_count(ram, program_addr + IMAGE_OFFSET);
    law_brk_on_page(ram, program_addr, elf);
    let start = Loading { ram, phdr_vaddr: 0, brk_start: 0 };
    lemma_brk_bound(ram, program_addr);
    lemma_heap_start(ram, program_addr, start, 0, k, 0);
}

/// The heap starts no later than it has to: at the least multiple of the page
/// size that is not below the end of any segment. The headers have to lie outside
/// the memory into which earlier segments are put.
pub proof fn law_brk_is_least(ram: Seq<u8>, program_addr: int, elf: LoadedElf, bound: int)
    requires
        in_ram(ram, program_addr, IMAGE_OFFSET + 58),
        headers_apart(ram, program_addr),
        loaded(ram, program_addr).1 == Ok::<LoadedElf, ProgramError>(elf),
        0 <= bound,
        bound % 0x1000 == 0,
        forall|k: int|
            0 <= k < elf.phnum && (#[trigger] header(ram, program_addr, k)).kind == 1 ==> header(
                ram,
                program_addr,
                k,
            ).vaddr + header(ram, program_addr, k).memsz <= bound,
    ensures
        elf.brk_start <= bound,
{
    lemma_header_count(ram, program_addr + IMAGE_OFFSET);
    let start = Loading { ram, phdr_vaddr: 0, brk_start: 0 };
    lemma_brk_bound(ram, program_addr);
    lemma_heap_start(ram, program_addr, start, 0, 0, bound);
}

proof fn lemma_brk_bound(ram: Seq<u8>, program_addr: int)
    ensures
        rest(
            ram,
            program_addr,
            Loading { ram, phdr_vaddr: 0, brk_start: 0 },
            0,
        ).0.brk_start <= BRK_MAX,
{
    let image = program_addr + IMAGE_OFFSET;
    lemma_brk(
        Loading { ram, phdr_vaddr: 0, brk_start: 0 },
        image,
        word(ram, image + 32, 8) as int,
        word(ram, image + 54, 2) as int,
        word(ram, image + 56, 2) as int,
        0,
    );
}

/// Where header number `k`, a `PT_LOAD`, puts the program headers, if its data
/// holds them; else 0.
pub open spec fn headers_in(ram: Seq<u8>, program_addr: int, k: int) -> nat {
    let h = header(ram, program_addr, k);
    let phoff = word(ram, program_addr + IMAGE_OFFSET + 32, 8);
    if h.kind == 1 && h.offset <= phoff < h.offset + h.filesz {
        (h.vaddr + phoff - h.offset) as nat
    } else {
        0
    }
}

/// The headers from number `i` on, where none is a `PT_PHDR` and none fails: an
/// address that is known stays, and else the first segment that holds the headers
/// gives it.
proof fn lemma_headers_found(ram: Seq<u8>, program_addr: int, st: Loading, i: int, k: int)
    requires
        reached(ram, program_addr, st, i),
        rest(ram, program_addr, st, i).1 is None,
        forall|j: int|
            i <= j < word(ram, program_addr + IMAGE_OFFSET + 56, 2) ==> (#[trigger] header(
                ram,
                program_addr,
                j,
            )).kind != 6,
    ensures
        ({
            let done = rest(ram, program_addr, st, i).0;
            let count = word(ram, program_addr + IMAGE_OFFSET + 56, 2);
            &&& st.phdr_vaddr != 0 ==> done.phdr_vaddr == st.phdr_vaddr
            &&& st.phdr_vaddr == 0 && i <= k < count && headers_in(ram, program_addr, k) != 0 && (
            forall|j: int| i <= j < k ==> #[trigger] headers_in(ram, program_addr, j) == 0)
                ==> done.phdr_vaddr == headers_in(ram, program_addr, k)
            &&& st.phdr_vaddr == 0 && (forall|j: int|
                i <= j < count ==> #[trigger] headers_in(ram, program_addr, j) == 0)
                ==> done.phdr_vaddr == 0
        }),
    decreases word(ram, program_addr + IMAGE_OFFSET + 56, 2) - i,
{
    if i < word(ram, program_addr + IMAGE_OFFSET + 56, 2) {
        lemma_step(ram, program_addr, st, i);
        let next = step(ram, program_addr, st, i)->Ok_0;
        assert(header(ram, program_addr, i).kind != 6);
        assert(next.phdr_vaddr == if st.phdr_vaddr == 0 {
            headers_in(ram, program_addr, i)
        } else {
            st.phdr_vaddr
        });
        lemma_headers_found(ram, program_addr, next, i + 1, k);
    }
}

/// The headers up to the last `PT_PHDR`, number `p`, make no difference to what
/// comes after it but for its address.
proof fn lemma_last_phdr(ram: Seq<u8>, program_addr: int, st: Loading, i: int, p: int) -> (after:
    Loading)
    requires
        reached(ram, program_addr, st, i),
        rest(ram, program_addr, st, i).1 is None,
        i <= p < word(ram, program_addr + IMAGE_OFFSET + 56, 2),
        header(ram, program_addr, p).kind == 6,
    ensures
        reached(ram, program_addr, after, p + 1),
        rest(ram, program_addr, after, p + 1) == rest(ram, program_addr, st, i),
        after.phdr_vaddr == header(ram, program_addr, p).vaddr,
    decreases p - i,
{
    lemma_step(ram, program_addr, st, i);
    let next = step(ram, program_addr, st, i)->Ok_0;
    if i < p {
        lemma_last_phdr(ram, program_addr, next, i + 1, p)
    } else {
        next
    }
}

/// Where a loaded program finds its headers: at the address of the last
/// `PT_PHDR`, number `p` (-1 where there is none); failing that, where the first
/// later segment whose data holds the headers, number `k`, puts them; and 0 where
/// neither gives an address. The headers have to lie outside the memory into
/// which earlier segments are put.
pub proof fn law_headers_found(
    ram: Seq<u8>,
    program_addr: int,
    elf: LoadedElf,
    p: int,
    k: int,
)
    requires
        in_ram(ram, program_addr, IMAGE_OFFSET + 58),
        headers_apart(ram, program_addr),
        loaded(ram, program_addr).1 == Ok::<LoadedElf, ProgramError>(elf),
        -1 <= p < elf.phnum,
        p >= 0 ==> header(ram, program_addr, p).kind == 6,
        forall|j: int|
            p < j < elf.phnum ==> (#[trigger] header(ram, program_addr, j)).kind != 6,
    ensures
        ({
            let given = if p >= 0 {
                header(ram, program_addr, p).vaddr
            } else {
                0
            };
            &&& given != 0 ==> elf.phdr_vaddr == given
            &&& given == 0 && p < k < elf.phnum && headers_in(ram, program_addr, k) != 0 && (forall|
                j: int,
            |
                p < j < k ==> #[trigger] headers_in(ram, program_addr, j) == 0) ==> elf.phdr_vaddr
                == headers_in(ram, program_addr, k)
            &&& given == 0 && (forall|j: int|
                p < j < elf.phnum ==> #[trigger] headers_in(ram, program_addr, j) == 0)
                ==> elf.phdr_vaddr == 0
        }),
{
    lemma_header_count(ram, program_addr + IMAGE_OFFSET);
    let start = Loading { ram, phdr_vaddr: 0, brk_start: 0 };
    lemma_phdr_fits(ram, program_addr, start, 0);
    if p >= 0 {
        let after = lemma_last_phdr(ram, program_addr, start, 0, p);
        lemma_headers_found(ram, program_addr, after, p + 1, k);
    } else {
        lemma_headers_found(ram, program_addr, start, 0, k);
    }
}

/// The address of the headers never grows beyond what a header field can hold.
proof fn lemma_phdr_fits(ram: Seq<u8>, program_addr: int, st: Loading, i: int)
    requires
        reached(ram, program_addr, st, i),
        st.phdr_vaddr <= u64::MAX,
    ensures
        rest(ram, program_addr, st, i).0.phdr_vaddr <= u64::MAX,
    decreases word(ram, program_addr + IMAGE_OFFSET + 56, 2) - i,
{
    if i < word(ram, program_addr + IMAGE_OFFSET + 56, 2) && step(ram, program_addr, st, i) is Ok {
        lemma_step(ram, program_addr, st, i);
        let next = step(ram, program_addr, st, i)->Ok_0;
        let ph = header_addr(ram, program_addr, i);
        crate::le::lemma_le_value_bound(st.ram.subrange(ph + 16, ph + 24));
        crate::le::lemma_le_limits();
        assert(in_ram(st.ram, ph, 48));
        lemma_phdr_fits(ram, program_addr, next, i + 1);
    }
}

proof fn lemma_bytes_kept(ram: Seq<u8>, program_addr: int, st: Loading, i: int, addr: int)
    requires
        reached(ram, program_addr, st, i),
        0 <= addr < ram.len(),
        forall|j: int|
            i <= j < word(ram, program_addr + IMAGE_OFFSET + 56, 2) ==> !claims(
                #[trigger] header(ram, program_addr, j),
                addr,
            ),
    ensures
        rest(ram, program_addr, st, i).0.ram[addr] == st.ram[addr],
    decreases word(ram, program_addr + IMAGE_OFFSET + 56, 2) - i,
{
    if i < word(ram, program_addr + IMAGE_OFFSET + 56, 2) && step(ram, program_addr, st, i) is Ok {
        lemma_step(ram, program_addr, st, i);
        let next = step(ram, program_addr, st, i)->Ok_0;
        assert(!claims(header(ram, program_addr, i), addr));
        lemma_bytes_kept(ram, program_addr, next, i + 1, addr);
    }
}

proof fn lemma_bytes_placed(ram: Seq<u8>, program_addr: int, st: Loading, i: int, k: int, addr: int)
    requires
        BRK_MAX <= ram.len(),
        reached(ram, program_addr, st, i),
        rest(ram, program_addr, st, i).1 is None,
        i <= k < word(ram, program_addr + IMAGE_OFFSET + 56, 2),
        data_apart(ram, program_addr, k),
        claims(header(ram, program_addr, k), addr),
        forall|j: int|
            k < j < word(ram, program_addr + IMAGE_OFFSET + 56, 2) ==> !claims(
                #[trigger] header(ram, program_addr, j),
                addr,
            ),
    ensures
        ({
            let h = header(ram, program_addr, k);
            rest(ram, program_addr, st, i).0.ram[addr] == if addr - h.vaddr < h.filesz {
                ram[program_addr + IMAGE_OFFSET + h.offset + addr - h.vaddr]
            } else {
                0u8
            }
        }),
    decreases k - i,
{
    lemma_step(ram, program_addr, st, i);
    let next = step(ram, program_addr, st, i)->Ok_0;
    if i < k {
        lemma_bytes_placed(ram, program_addr, next, i + 1, k, addr);
    } else {
        let h = header(ram, program_addr, k);
        let from = program_addr + IMAGE_OFFSET + h.offset + addr - h.vaddr;
        if addr - h.vaddr < h.filesz {
            assert(in_data(ram, program_addr, k, from));
            assert(!claimed_before(ram, program_addr, k, from));
            assert(st.ram[from] == ram[from]);
        }
        lemma_bytes_kept(ram, program_addr, next, i + 1, addr);
    }
}

/// In a loaded program every byte of a segment that no later segment claims is
/// the byte of the file, or zero beyond the segment's data. The headers and the
/// segment's data have to lie outside the memory into which earlier segments are
/// put.
pub proof fn law_segment_in_place(
    ram: Seq<u8>,
    program_addr: int,
    elf: LoadedElf,
    k: int,
    addr: int,
)
    requires
        BRK_MAX <= ram.len(),
        in_ram(ram, program_addr, IMAGE_OFFSET + 58),
        headers_apart(ram, program_addr),
        data_apart(ram, program_addr, k),
        loaded(ram, program_addr).1 == Ok::<LoadedElf, ProgramError>(elf),
        0 <= k < elf.phnum,
        claims(header(ram, program_addr, k), addr),
        forall|j: int|
            k < j < elf.phnum ==> !claims(#[trigger] header(ram, program_addr, j), addr),
    ensures
        ({
            let h = header(ram, program_addr, k);
            loaded(ram, program_addr).0[addr] == if addr - h.vaddr < h.filesz {
                ram[program_addr + IMAGE_OFFSET + h.offset + addr - h.vaddr]
            } else {
                0u8
            }
        }),
{
    lemma_header_count(ram, program_addr + IMAGE_OFFSET);
    let start = Loading { ram, phdr_vaddr: 0, brk_start: 0 };
    lemma_bytes_placed(ram, program_addr, start, 0, k, addr);
}

/// A byte that no segment claims is left alone by loading, whether or not
/// loading succeeds. The headers have to lie outside the memory into which
/// earlier segments are put.
pub proof fn law_unclaimed_left_alone(ram: Seq<u8>, program_addr: int, addr: int)
    requires
        0 <= program_addr,
        headers_apart(ram, program_addr),
        0 <= addr < ram.len(),
        forall|j: int|
            0 <= j < word(ram, program_addr + IMAGE_OFFSET + 56, 2) ==> !claims(
                #[trigger] header(ram, program_addr, j),
                addr,
            ),
    ensures
        loaded(ram, program_addr).0[addr] == ram[addr],
{
    let start = Loading { ram, phdr_vaddr: 0, brk_start: 0 };
    lemma_bytes_kept(ram, program_addr, start, 0, addr);
}

/// An image that lies outside the region into which programs are linked has its
/// headers and all its data apart from its segments.
pub proof fn law_image_above_is_apart(ram: Seq<u8>, program_addr: int, k: int)
    requires
        BRK_MAX <= program_addr,
    ensures
        headers_apart(ram, program_addr),
        data_apart(ram, program_addr, k),
{
    let image = program_addr + IMAGE_OFFSET;
    assert forall|n: int, a: int| BRK_MAX <= a implies !#[trigger] claimed_before(
        ram,
        program_addr,
        n,
        a,
    ) by {
        if claimed_before(ram, program_addr, n, a) {
            let j = choose|j: int|
                0 <= j < n && claims(#[trigger] header(ram, program_addr, j), a);
            assert(claims(header(ram, program_addr, j), a));
        }
    }
    assert forall|n: int, a: int|
        0 <= n < word(ram, image + 56, 2) && header_addr(ram, program_addr, n) <= a < header_addr(
            ram,
            program_addr,
            n,
        ) + 48 implies !#[trigger] claimed_before(ram, program_addr, n, a) by {
        assert(0 <= n * word(ram, image + 54, 2)) by (nonlinear_arith)
            requires
                0 <= n,
                0 <= word(ram, image + 54, 2),
        ;
    }
}

/// A program starts where its file says: the entry point is the number at offset
/// 24 of the image, and size and number of the headers are those at offsets 54
/// and 56.
pub proof fn law_entry_of_file(ram: Seq<u8>, program_addr: int, elf: LoadedElf)
    requires
        in_ram(ram, program_addr, 74),
        loaded(ram, program_addr).1 == Ok::<LoadedElf, ProgramError>(elf),
    ensures
        elf.entry as nat == word(ram, program_addr + 16 + 24, 8),
        elf.phent as nat == word(ram, program_addr + 16 + 54, 2),
        elf.phnum as nat == word(ram, program_addr + 16 + 56, 2),
{
    let image = program_addr + 16;
    crate::le::lemma_le_limits();
    crate::le::lemma_le_value_bound(ram.subrange(image + 24, image + 32));
    crate::le::lemma_le_value_bound(ram.subrange(image + 54, image + 56));
    crate::le::lemma_le_value_bound(ram.subrange(image + 56, image + 58));
}

/// What is refused at first sight, and that nothing has been touched then: an
/// image of length zero; one that does not start with 0x7f and `ELF`; and one
/// whose type is not 2. Whatever else fails is no such refusal.
pub proof fn law_refused_at_sight(ram: Seq<u8>, program_addr: int)
    requires
        in_ram(ram, program_addr, 74),
    ensures
        ({
            let image = program_addr + 16;
            let empty = word(ram, program_addr, 8) == 0;
            let elf = ram[image] == 0x7f && ram[image + 1] == 0x45 && ram[image + 2] == 0x4c
                && ram[image + 3] == 0x46;
            let exec = ram[image + 16] == 2 && ram[image + 17] == 0;
            let (after, result) = loaded(ram, program_addr);
            &&& result == Err::<LoadedElf, ProgramError>(ProgramError::NoImage) <==> empty
            &&& result == Err::<LoadedElf, ProgramError>(ProgramError::NotElf) <==> !empty && !elf
            &&& result == Err::<LoadedElf, ProgramError>(ProgramError::NotExec) <==> !empty && elf
                && !exec
            &&& empty || !elf || !exec ==> after == ram
        }),
{
    let image = program_addr + 16;
    law_word_bytes(ram, image);
    law_word_bytes(ram, image + 16);
    lemma_later_errors(
        Loading { ram, phdr_vaddr: 0, brk_start: 0 },
        image,
        word(ram, image + 32, 8) as int,
        word(ram, image + 54, 2) as int,
        word(ram, image + 56, 2) as int,
        0,
    );
}

proof fn lemma_later_errors(st: Loading, image: int, phoff: int, phent: int, n: int, i: int)
    ensures
        load_all(st, image, phoff, phent, n, i).1 matches Some(error) ==> error
            == ProgramError::SegmentOutside || error == ProgramError::Fault,
    decreases n - i,
{
    if i < n {
        if let Ok(next) = load_one(st, image, phoff, image + phoff + i * phent) {
            lemma_later_errors(next, image, phoff, phent, n, i + 1);
        }
    }
}

/// Where a program header lies and what its fields are: the headers start at the
/// offset that stands at 32 of the image and follow one another at the distance
/// that stands at 54; type, offset, address and the two sizes stand at 0, 8, 16,
/// 32 and 40 of each.
pub proof fn law_header_fields(ram: Seq<u8>, program_addr: int, k: int)
    ensures
        ({
            let image = program_addr + 16;
            let ph = image + word(ram, image + 32, 8) + k * word(ram, image + 54, 2);
            let h = header(ram, program_addr, k);
            &&& header_addr(ram, program_addr, k) == ph
            &&& h.kind == word(ram, ph, 4)
            &&& h.offset == word(ram, ph + 8, 8)
            &&& h.vaddr == word(ram, ph + 16, 8)
            &&& h.filesz == word(ram, ph + 32, 8)
            &&& h.memsz == word(ram, ph + 40, 8)
        }),
{
}

/// Header number `k` can be taken in: it lies in memory, and where it is a
/// `PT_LOAD` its segment ends within the program region, holds no more data than
/// it has room for, and has its data in memory.
pub open spec fn acceptable(ram: Seq<u8>, program_addr: int, k: int) -> bool {
    let h = header(ram, program_addr, k);
    let source = program_addr + 16 + h.offset;
    &&& header_addr(ram, program_addr, k) + 48 <= ram.len()
    &&& h.kind == 1 ==> {
        &&& h.vaddr + h.memsz <= 0x00e0_0000
        &&& h.filesz <= h.memsz
        &&& source <= u64::MAX
        &&& h.filesz == 0 || source + h.filesz <= ram.len()
    }
}

proof fn lemma_walk_to(ram: Seq<u8>, program_addr: int, st: Loading, i: int, k: int) -> (at: Loading)
    requires
        reached(ram, program_addr, st, i),
        i <= k <= word(ram, program_addr + IMAGE_OFFSET + 56, 2),
        forall|j: int| i <= j < k ==> #[trigger] acceptable(ram, program_addr, j),
    ensures
        reached(ram, program_addr, at, k),
        rest(ram, program_addr, at, k) == rest(ram, program_addr, st, i),
    decreases k - i,
{
    if i < k {
        assert(acceptable(ram, program_addr, i));
        lemma_header_kept(ram, program_addr, st, i);
        assert(step(ram, program_addr, st, i) is Ok);
        lemma_step(ram, program_addr, st, i);
        lemma_walk_to(ram, program_addr, step(ram, program_addr, st, i)->Ok_0, i + 1, k)
    } else {
        st
    }
}

/// A program loads where every header can be taken in. Else the first that
/// cannot, number `k`, decides: a segment beyond the program region is refused as
/// such, anything else is a fault, and of memory only what earlier segments claim
/// has changed. The headers have to lie outside the memory into which earlier
/// segments are put.
pub proof fn law_first_bad_header_decides(ram: Seq<u8>, program_addr: int, k: int)
    requires
        in_ram(ram, program_addr, 74),
        headers_apart(ram, program_addr),
        word(ram, program_addr, 8) != 0,
        word(ram, program_addr + 16, 4) == 0x464c_457f,
        word(ram, program_addr + 32, 2) == 2,
        0 <= k <= word(ram, program_addr + 16 + 56, 2),
        forall|j: int| 0 <= j < k ==> #[trigger] acceptable(ram, program_addr, j),
    ensures
        ({
            let h = header(ram, program_addr, k);
            let (after, result) = loaded(ram, program_addr);
            let seen = header_addr(ram, program_addr, k) + 48 <= ram.len();
            let count = word(ram, program_addr + 16 + 56, 2);
            &&& k == count ==> result is Ok
            &&& k < count && !acceptable(ram, program_addr, k) ==> {
                &&& result == Err::<LoadedElf, ProgramError>(
                    if seen && h.kind == 1 && h.vaddr + h.memsz > 0x00e0_0000 {
                        ProgramError::SegmentOutside
                    } else {
                        ProgramError::Fault
                    },
                )
                &&& forall|a: int|
                    0 <= a < ram.len() && !claimed_before(ram, program_addr, k, a)
                        ==> #[trigger] after[a] == ram[a]
            }
            &&& after.len() == ram.len()
        }),
{
    let start = Loading { ram, phdr_vaddr: 0, brk_start: 0 };
    let at = lemma_walk_to(ram, program_addr, start, 0, k);
    if k < word(ram, program_addr + 16 + 56, 2) {
        lemma_header_kept(ram, program_addr, at, k);
        if !acceptable(ram, program_addr, k) {
            assert(step(ram, program_addr, at, k) is Err);
        }
    }
    let image = program_addr + IMAGE_OFFSET;
    lemma_load_len(
        start,
        image,
        word(ram, image + 32, 8) as int,
        word(ram, image + 54, 2) as int,
        word(ram, image + 56, 2) as int,
        0,
    );
}

proof fn lemma_load_len(st: Loading, image: int, phoff: int, phent: int, n: int, i: int)
    ensures
        load_all(st, image, phoff, phent, n, i).0.ram.len() == st.ram.len(),
    decreases n - i,
{
    if i < n {
        if let Ok(next) = load_one(st, image, phoff, image + phoff + i * phent) {
            lemma_load_len(next, image, phoff, phent, n, i + 1);
        }
    }
}

/// Rounding up gives the next multiple of 4096 that is not below the number.
pub proof fn law_page_up(n: int)
    ensures
        page_up(n) % 4096 == 0,
        n <= page_up(n) < n + 4096,
        BRK_MAX == 0x00e0_0000 && IMAGE_OFFSET == 16,
{
}

} // verus!
