//! Putting the kernel's object file into guest memory.

use crate::memory::{splice, word, write_bytes};
use object::{Object, ObjectSegment};
use vstd::prelude::*;

use crate::paging::{law_identity_map_lasts, lemma_table_size, translate, with_page_tables, PML4_ADDR};

verus! {

/// One loadable segment of an object file: where it goes, and what the file
/// holds of it (`None` where the file does not hold what its header says).
pub struct FileSegment {
    pub address: u64,
    pub data: Option<Vec<u8>>,
}

impl View for FileSegment {
    type V = (u64, Option<Seq<u8>>);

    open spec fn view(&self) -> (u64, Option<Seq<u8>>) {
        (
            self.address,
            match self.data {
                Some(data) => Some(data@),
                None => None,
            },
        )
    }
}

/// What the loader uses of an object file.
pub struct ObjectFile {
    pub segments: Vec<FileSegment>,
    pub entry: u64,
}

impl View for ObjectFile {
    type V = (Seq<(u64, Option<Seq<u8>>)>, u64);

    open spec fn view(&self) -> (Seq<(u64, Option<Seq<u8>>)>, u64) {
        (segment_views(self.segments@), self.entry)
    }
}

/// The views of a list of segments.
pub open spec fn segment_views(segments: Seq<FileSegment>) -> Seq<(u64, Option<Seq<u8>>)> {
    Seq::new(segments.len(), |i: int| segments[i]@)
}

/// Why a kernel could not be loaded.
#[derive(Debug, Clone, Copy, PartialEq, Eq, Structural)]
pub enum LoadError {
    /// The bytes are no object file.
    Parse,
    /// A segment's data lies outside the file.
    SegmentData,
    /// A segment's data does not fit in guest memory.
    PastEnd,
}

/// `object::Error`: what the parser reports of bytes that it rejects.
#[verifier::external_type_specification]
#[verifier::external_body]
pub struct ExObjectError(object::Error);

/// What `object::File::parse` makes of a file's bytes: the loadable segments in
/// file order and the entry point, or `None` where it rejects them.
pub uninterp spec fn object_file(bytes: Seq<u8>) -> Option<(Seq<(u64, Option<Seq<u8>>)>, u64)>;

/// The bytes start like a 64-bit little-endian ELF file with a whole header.
pub open spec fn elf64(bytes: Seq<u8>) -> bool {
    &&& bytes.len() >= 64
    &&& bytes[0] == 0x7f && bytes[1] == 0x45 && bytes[2] == 0x4c && bytes[3] == 0x46
    &&& bytes[4] == 2 && bytes[5] == 1
}

/// How many program headers an ELF file has. (0xffff stands for a number that is
/// kept elsewhere.)
pub open spec fn elf_header_count(bytes: Seq<u8>) -> nat {
    if word(bytes, 32, 8) == 0 {
        0
    } else {
        word(bytes, 56, 2)
    }
}

/// Where program header number `i` of an ELF file starts.
pub open spec fn elf_header(bytes: Seq<u8>, i: int) -> int {
    word(bytes, 32, 8) + 56 * i
}

/// The segment that the program header at `ph` describes.
pub open spec fn elf_segment(bytes: Seq<u8>, ph: int) -> (u64, Option<Seq<u8>>) {
    let offset = word(bytes, ph + 8, 8) as int;
    let size = word(bytes, ph + 32, 8) as int;
    (
        word(bytes, ph + 16, 8) as u64,
        if size == 0 {
            Some(Seq::empty())
        } else if offset + size <= bytes.len() {
            Some(bytes.subrange(offset, offset + size))
        } else {
            None
        },
    )
}

/// The segments of the `PT_LOAD` (1) headers among the first `n`, in order.
pub open spec fn elf_segments(bytes: Seq<u8>, n: nat) -> Seq<(u64, Option<Seq<u8>>)>
    decreases n,
{
    if n == 0 {
        Seq::empty()
    } else {
        let earlier = elf_segments(bytes, (n - 1) as nat);
        let ph = elf_header(bytes, n - 1);
        if word(bytes, ph, 4) == 1 {
            earlier.push(elf_segment(bytes, ph))
        } else {
            earlier
        }
    }
}

/// Calls `object::File::parse` and hands out, of the file that it returns,
/// `segments` (each with its `address` and its `data`, an error there as
/// `None`) and `entry`. The contract claims that whether the bytes parse, and
/// into what, depends on the bytes alone; and that of a 64-bit little-endian ELF
/// file that parses, the entry point is the header's, and the segments are those
/// of its `PT_LOAD` headers, as long as the header itself says how many headers
/// there are. Which files parse is left to the parser. It reads numbers as arrays
/// of bytes, so where in the host's memory the file lies plays no part.
#[verifier::external_body]
fn parse_object(bytes: &[u8]) -> (parsed: Result<ObjectFile, object::Error>)
    ensures
        parsed matches Ok(file) ==> object_file(bytes@) == Some(file@),
        parsed is Err ==> object_file(bytes@) is None,
        parsed matches Ok(file) ==> elf64(bytes@) ==> file.entry as nat == word(bytes@, 24, 8),
        parsed matches Ok(file) ==> elf64(bytes@) && word(bytes@, 56, 2) != 0xffff ==> file@.0
            == elf_segments(bytes@, elf_header_count(bytes@)),
{
    let file = object::File::parse(bytes)?;
    let segments = file
        .segments()
        .map(|s| FileSegment { address: s.address(), data: s.data().ok().map(|d| d.to_vec()) })
        .collect();
    Ok(ObjectFile { segments, entry: file.entry() })
}

/// Memory after the segments went in, in order, and what stopped them. A
/// segment without data is passed over wherever it points.
pub open spec fn place(ram: Seq<u8>, segments: Seq<(u64, Option<Seq<u8>>)>) -> (
    Seq<u8>,
    Option<LoadError>,
)
    decreases segments.len(),
{
    if segments.len() == 0 {
        (ram, None)
    } else {
        match segments[0].1 {
            None => (ram, Some(LoadError::SegmentData)),
            Some(data) => if data.len() == 0 {
                place(ram, segments.drop_first())
            } else if segments[0].0 + data.len() > ram.len() {
                (ram, Some(LoadError::PastEnd))
            } else {
                place(splice(ram, segments[0].0 as int, data), segments.drop_first())
            },
        }
    }
}

/// Copies each segment's data to its address. What a segment has in memory
/// beyond its data needs no zeroing in memory that starts out zero.
pub fn place_segments(ram: &mut [u8], segments: &[FileSegment]) -> (placed: Result<(), LoadError>)
    ensures
        final(ram)@ == place(old(ram)@, segment_views(segments@)).0,
        match place(old(ram)@, segment_views(segments@)).1 {
            None => placed is Ok,
            Some(error) => placed == Err::<(), LoadError>(error),
        },
{
    let ghost all = segment_views(segments@);
    let mut i: usize = 0;
    proof {
        assert(all.skip(0) =~= all);
    }
    while i < segments.len()
        invariant
            i <= segments@.len(),
            all == segment_views(segments@),
            place(old(ram)@, all) == place(ram@, all.skip(i as int)),
        decreases segments@.len() - i,
    {
        proof {
            assert(all.skip(i as int)[0] == segments@[i as int]@);
            assert(all.skip(i as int).drop_first() =~= all.skip(i + 1));
            assert(ram@.len() == ram.len());
        }
        let segment: &FileSegment = &segments[i];
        match &segment.data {
            None => {
                return Err(LoadError::SegmentData);
            },
            Some(data) => {
                if data.len() > 0 {
                    if segment.address > ram.len() as u64 || data.len() > ram.len()
                        - segment.address as usize {
                        return Err(LoadError::PastEnd);
                    }
                    write_bytes(ram, segment.address, data.as_slice());
                }
            },
        }
        i = i + 1;
    }
    Ok(())
}

/// Parses the kernel's object file, loads it into guest memory and returns its
/// entry point.
pub fn load_kernel(ram: &mut [u8], bytes: &[u8]) -> (entry: Result<u64, LoadError>)
    ensures
        match object_file(bytes@) {
            None => {
                &&& entry == Err::<u64, LoadError>(LoadError::Parse)
                &&& final(ram)@ == old(ram)@
            },
            Some(file) => {
                &&& final(ram)@ == place(old(ram)@, file.0).0
                &&& entry == match place(old(ram)@, file.0).1 {
                    None => Ok::<u64, LoadError>(file.1),
                    Some(error) => Err::<u64, LoadError>(error),
                }
            },
        },
        object_file(bytes@) matches Some(file) ==> elf64(bytes@) ==> file.1 as nat == word(
            bytes@,
            24,
            8,
        ),
        object_file(bytes@) matches Some(file) ==> elf64(bytes@) && word(bytes@, 56, 2) != 0xffff
            ==> file.0 == elf_segments(bytes@, elf_header_count(bytes@)),
        entry matches Ok(start) ==> elf64(bytes@) ==> start as nat == word(bytes@, 24, 8),
        entry is Ok && elf64(bytes@) && word(bytes@, 56, 2) != 0xffff ==> {
            let segments = elf_segments(bytes@, elf_header_count(bytes@));
            &&& final(ram)@ == place(old(ram)@, segments).0
            &&& place(old(ram)@, segments).1 is None
        },
{
    match parse_object(bytes) {
        Err(_) => Err(LoadError::Parse),
        Ok(file) => match place_segments(ram, file.segments.as_slice()) {
            Ok(()) => Ok(file.entry),
            Err(error) => Err(error),
        },
    }
}

/// Every `PT_LOAD` header of an ELF file is among the segments that are loaded.
pub proof fn law_every_load_header_counts(bytes: Seq<u8>, n: nat, i: int)
    requires
        0 <= i < n,
        word(bytes, elf_header(bytes, i), 4) == 1,
    ensures
        exists|k: int|
            0 <= k < elf_segments(bytes, n).len() && #[trigger] elf_segments(bytes, n)[k]
                == elf_segment(bytes, elf_header(bytes, i)),
    decreases n,
{
    let earlier = elf_segments(bytes, (n - 1) as nat);
    let all = elf_segments(bytes, n);
    if i == n - 1 {
        assert(all[earlier.len() as int] == elf_segment(bytes, elf_header(bytes, i)));
    } else {
        law_every_load_header_counts(bytes, (n - 1) as nat, i);
        let k = choose|k: int|
            0 <= k < earlier.len() && #[trigger] earlier[k] == elf_segment(
                bytes,
                elf_header(bytes, i),
            );
        assert(all[k] == earlier[k]);
    }
}

/// The address lies in the data of segment `k`.
pub open spec fn covers(segments: Seq<(u64, Option<Seq<u8>>)>, k: int, addr: int) -> bool {
    segments[k].1 matches Some(data) && segments[k].0 <= addr < segments[k].0 + data.len()
}

/// Loading never changes the size of memory, nor a byte that no segment covers.
/// In memory that starts out zero, all that the segments have beyond their data
/// therefore stays zero.
pub proof fn law_load_leaves_rest(
    ram: Seq<u8>,
    segments: Seq<(u64, Option<Seq<u8>>)>,
    addr: int,
)
    requires
        0 <= addr < ram.len(),
        forall|k: int| 0 <= k < segments.len() ==> !#[trigger] covers(segments, k, addr),
    ensures
        place(ram, segments).0.len() == ram.len(),
        place(ram, segments).0[addr] == ram[addr],
    decreases segments.len(),
{
    if segments.len() > 0 {
        let rest = segments.drop_first();
        assert(!covers(segments, 0, addr));
        assert forall|k: int| 0 <= k < rest.len() implies !#[trigger] covers(rest, k, addr) by {
            assert(!covers(segments, k + 1, addr));
        }
        if let Some(data) = segments[0].1 {
            if data.len() == 0 {
                law_load_leaves_rest(ram, rest, addr);
            } else if segments[0].0 + data.len() <= ram.len() {
                law_load_leaves_rest(splice(ram, segments[0].0 as int, data), rest, addr);
            }
        }
    }
}

/// Once every segment has been placed, each byte that a segment covers, and no
/// later one, is that segment's byte.
pub proof fn law_load_places_data(
    ram: Seq<u8>,
    segments: Seq<(u64, Option<Seq<u8>>)>,
    k: int,
    addr: int,
)
    requires
        place(ram, segments).1 is None,
        0 <= k < segments.len(),
        covers(segments, k, addr),
        forall|j: int| k < j < segments.len() ==> !#[trigger] covers(segments, j, addr),
    ensures
        0 <= addr < ram.len(),
        segments[k].1 is Some,
        place(ram, segments).0[addr] == segments[k].1->0[addr - segments[k].0],
    decreases segments.len(),
{
    let rest = segments.drop_first();
    let data = segments[0].1->0;
    let next = if data.len() == 0 {
        ram
    } else {
        splice(ram, segments[0].0 as int, data)
    };
    assert(place(ram, segments) == place(next, rest));
    assert forall|j: int| k - 1 < j < rest.len() && j >= 0 implies !#[trigger] covers(
        rest,
        j,
        addr,
    ) by {
        assert(!covers(segments, j + 1, addr));
    }
    if k == 0 {
        law_load_leaves_rest(next, rest, addr);
    } else {
        assert(covers(rest, k - 1, addr));
        law_load_places_data(next, rest, k - 1, addr);
    }
}

/// A kernel none of whose data lies in the pages of the page tables leaves the
/// identity map of the first GiB intact.
pub proof fn law_load_keeps_identity_map(
    ram: Seq<u8>,
    segments: Seq<(u64, Option<Seq<u8>>)>,
    va: int,
)
    requires
        0x4000 <= ram.len(),
        forall|k: int, addr: int|
            0 <= k < segments.len() && 0x1000 <= addr < 0x4000 ==> !#[trigger] covers(
                segments,
                k,
                addr,
            ),
        0 <= va < 0x4000_0000,
    ensures
        translate(place(with_page_tables(ram), segments).0, PML4_ADDR as int, va) == Some(
            (va, true),
        ),
{
    let mapped = with_page_tables(ram);
    lemma_table_size(ram);
    let later = place(mapped, segments).0;
    law_load_leaves_rest(mapped, segments, 0x1000);
    assert forall|k: int| 0x1000 <= k < 0x4000 implies #[trigger] later[k] == mapped[k] by {
        law_load_leaves_rest(mapped, segments, k);
    }
    law_identity_map_lasts(ram, later, va);
}

/// A segment can be placed: the file holds its data, and where there is any it
/// fits in memory of `len` bytes.
pub open spec fn placeable(len: nat, segment: (u64, Option<Seq<u8>>)) -> bool {
    segment.1 matches Some(data) && (data.len() == 0 || segment.0 + data.len() <= len)
}

/// Placing succeeds where every segment can be placed. Else the first one that
/// cannot be placed, number `k`, decides: the error says whether its data is
/// missing from the file or does not fit, and memory holds what came before it.
pub proof fn law_first_misfit_decides(ram: Seq<u8>, segments: Seq<(u64, Option<Seq<u8>>)>, k: int)
    requires
        0 <= k <= segments.len(),
        forall|j: int| 0 <= j < k ==> placeable(ram.len(), #[trigger] segments[j]),
    ensures
        k == segments.len() ==> place(ram, segments).1 is None,
        k < segments.len() && segments[k].1 is None ==> place(ram, segments).1 == Some(
            LoadError::SegmentData,
        ),
        k < segments.len() && (segments[k].1 matches Some(data) && data.len() > 0 && segments[k].0
            + data.len() > ram.len()) ==> place(ram, segments).1 == Some(LoadError::PastEnd),
        k < segments.len() && !placeable(ram.len(), segments[k]) ==> place(ram, segments).0 == place(
            ram,
            segments.take(k),
        ).0,
        place(ram, segments.take(k)).1 is None,
    decreases segments.len(),
{
    let some = segments.take(k);
    if k > 0 {
        assert(placeable(ram.len(), segments[0]));
        let rest = segments.drop_first();
        let data = segments[0].1->0;
        let next = if data.len() == 0 {
            ram
        } else {
            splice(ram, segments[0].0 as int, data)
        };
        assert forall|j: int| 0 <= j < k - 1 implies placeable(next.len(), #[trigger] rest[j]) by {
            assert(placeable(ram.len(), segments[j + 1]));
        }
        law_first_misfit_decides(next, rest, k - 1);
        assert(some.drop_first() =~= rest.take(k - 1));
        if k < segments.len() {
            assert(rest[k - 1] == segments[k]);
        }
        assert(some[0] == segments[0]);
    } else {
        assert(some.len() == 0);
    }
}

/// What a `PT_LOAD` header of a 64-bit ELF file says: where its segment goes
/// stands at offset 16, and its data in the file starts at the number at offset 8
/// and has the size at offset 32. The segments keep the order of their headers,
/// and no other header makes one.
pub proof fn law_segments_of_headers(bytes: Seq<u8>, n: nat, i: int)
    requires
        0 <= i < n,
    ensures
        ({
            let ph = word(bytes, 32, 8) + 56 * i;
            let at = elf_segments(bytes, i as nat).len();
            let offset = word(bytes, ph + 8, 8);
            let size = word(bytes, ph + 32, 8);
            &&& at <= elf_segments(bytes, n).len()
            &&& elf_segments(bytes, (i + 1) as nat).len() == if word(bytes, ph, 4) == 1 {
                at + 1
            } else {
                at
            }
            &&& elf_segments(bytes, 0).len() == 0
            &&& word(bytes, ph, 4) == 1 && word(bytes, ph + 16, 8) <= u64::MAX ==> {
                &&& at < elf_segments(bytes, n).len()
                &&& elf_segments(bytes, n)[at as int].0 == word(bytes, ph + 16, 8)
                &&& size > 0 && offset + size <= bytes.len() ==> elf_segments(bytes, n)[at as int].1
                    == Some(bytes.subrange(offset as int, (offset + size) as int))
                &&& size > 0 && offset + size > bytes.len() ==> elf_segments(
                    bytes,
                    n,
                )[at as int].1 is None
                &&& size == 0 ==> elf_segments(bytes, n)[at as int].1 == Some(Seq::<u8>::empty())
            }
        }),
    decreases n,
{
    if i < n - 1 {
        law_segments_of_headers(bytes, (n - 1) as nat, i);
    }
}

/// A 64-bit little-endian ELF file starts with 0x7f, `ELF`, 2 and 1, and has a
/// header of 64 bytes; it has as many program headers as the number at offset 56
/// says, and none where the number at offset 32 is zero.
pub proof fn law_elf_header(bytes: Seq<u8>)
    ensures
        bytes.len() >= 64 && bytes.take(6) == seq![0x7fu8, 0x45, 0x4c, 0x46, 2, 1] ==> elf64(bytes),
        elf64(bytes) ==> bytes.len() >= 64 && bytes.take(6) == seq![0x7fu8, 0x45, 0x4c, 0x46, 2, 1],
        word(bytes, 32, 8) == 0 ==> elf_header_count(bytes) == 0,
        word(bytes, 32, 8) != 0 ==> elf_header_count(bytes) == word(bytes, 56, 2),
{
    if bytes.len() >= 64 {
        let start = bytes.take(6);
        assert(start[0] == bytes[0] && start[1] == bytes[1] && start[2] == bytes[2]);
        assert(start[3] == bytes[3] && start[4] == bytes[4] && start[5] == bytes[5]);
        if elf64(bytes) {
            assert(start =~= seq![0x7fu8, 0x45, 0x4c, 0x46, 2, 1]);
        }
    }
}

/// What is seen of a list of segments: of each, in order, its address and, where
/// the file holds it, all of its data.
pub proof fn law_segments_seen(segments: Seq<FileSegment>, i: int)
    requires
        0 <= i < segments.len(),
    ensures
        segment_views(segments).len() == segments.len(),
        segment_views(segments)[i].0 == segments[i].address,
        segments[i].data is None <==> segment_views(segments)[i].1 is None,
        segments[i].data matches Some(data) ==> segment_views(segments)[i].1 == Some(data@),
{
}

} // verus!
