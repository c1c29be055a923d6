//! Guest physical memory: bytes indexed by their guest physical address.

use crate::le::{from_le, to_le};
use vstd::prelude::*;

use crate::le::{
    law_le_widths, le_bytes, le_value, lemma_le_bytes_len, lemma_le_decode_encode, lemma_le_limits, lemma_le_value_bound,
};

verus! {

/// The `n` bytes from `addr` on all lie in memory.
pub open spec fn in_ram(ram: Seq<u8>, addr: int, n: int) -> bool {
    0 <= addr && 0 <= n && addr + n <= ram.len()
}

/// Memory with `bytes` put at `addr` and nothing else changed.
pub open spec fn splice(ram: Seq<u8>, addr: int, bytes: Seq<u8>) -> Seq<u8> {
    Seq::new(
        ram.len(),
        |i: int|
            if addr <= i < addr + bytes.len() {
                bytes[i - addr]
            } else {
                ram[i]
            },
    )
}

/// The little-endian number in the `n` bytes at `addr`.
pub open spec fn word(ram: Seq<u8>, addr: int, n: int) -> nat {
    le_value(ram.subrange(addr, addr + n))
}

/// Memory with the low eight bytes of `value` put at `addr`.
pub open spec fn splice_u64(ram: Seq<u8>, addr: int, value: u64) -> Seq<u8> {
    splice(ram, addr, le_bytes(value as nat, 8))
}

/// Copies `bytes` into memory at `gpa`.
pub fn write_bytes(ram: &mut [u8], gpa: u64, bytes: &[u8])
    requires
        gpa + bytes@.len() <= old(ram)@.len(),
    ensures
        final(ram)@ == splice(old(ram)@, gpa as int, bytes@),
{
    assert(ram@.len() == ram.len());
    let start: usize = gpa as usize;
    let mut i: usize = 0;
    let ghost before = ram@;
    while i < bytes.len()
        invariant
            i <= bytes@.len(),
            start as int == gpa as int,
            gpa + bytes@.len() <= before.len() <= usize::MAX,
            ram@ == splice(before, gpa as int, bytes@.subrange(0, i as int)),
        decreases bytes@.len() - i,
    {
        ram[start + i] = bytes[i];
        i = i + 1;
        proof {
            assert(ram@ =~= splice(before, gpa as int, bytes@.subrange(0, i as int)));
        }
    }
    proof {
        assert(bytes@.subrange(0, i as int) =~= bytes@);
    }
}

/// Stores `value` at `gpa`, least significant byte first.
pub fn write_u64(ram: &mut [u8], gpa: u64, value: u64)
    requires
        gpa + 8 <= old(ram)@.len(),
    ensures
        final(ram)@ == splice_u64(old(ram)@, gpa as int, value),
{
    let bytes: Vec<u8> = to_le(value, 8);
    write_bytes(ram, gpa, bytes.as_slice());
}

/// A copy of the `n` bytes at `addr`.
pub fn read_bytes(ram: &[u8], addr: u64, n: usize) -> (bytes: Vec<u8>)
    requires
        addr + n <= ram@.len(),
    ensures
        bytes@ == ram@.subrange(addr as int, addr + n),
{
    assert(ram@.len() == ram.len());
    let start: usize = addr as usize;
    let mut bytes: Vec<u8> = Vec::new();
    let mut i: usize = 0;
    while i < n
        invariant
            i <= n,
            start as int == addr as int,
            addr + n <= ram@.len() <= usize::MAX,
            bytes@ == ram@.subrange(addr as int, addr + i),
        decreases n - i,
    {
        bytes.push(ram[start + i]);
        i = i + 1;
        proof {
            assert(bytes@ =~= ram@.subrange(addr as int, addr + i));
        }
    }
    bytes
}

/// `n` zero bytes.
pub open spec fn zeros(n: nat) -> Seq<u8> {
    Seq::new(n, |i: int| 0u8)
}

/// Clears the `n` bytes at `addr`.
pub fn clear_bytes(ram: &mut [u8], addr: u64, n: usize)
    requires
        addr + n <= old(ram)@.len(),
    ensures
        final(ram)@ == splice(old(ram)@, addr as int, zeros(n as nat)),
{
    assert(ram@.len() == ram.len());
    let start: usize = addr as usize;
    let mut i: usize = 0;
    let ghost before = ram@;
    while i < n
        invariant
            i <= n,
            start as int == addr as int,
            addr + n <= before.len() <= usize::MAX,
            ram@ == splice(before, addr as int, zeros(i as nat)),
        decreases n - i,
    {
        ram[start + i] = 0;
        i = i + 1;
        proof {
            assert(ram@ =~= splice(before, addr as int, zeros(i as nat)));
        }
    }
}

/// The two-byte number at `addr`.
pub fn read_u16(ram: &[u8], addr: u64) -> (value: u16)
    requires
        addr + 2 <= ram@.len(),
    ensures
        value as nat == word(ram@, addr as int, 2),
{
    assert(ram@.len() == ram.len());
    proof {
        lemma_le_value_bound(ram@.subrange(addr as int, addr + 2));
        lemma_le_limits();
    }
    from_le(ram, addr as usize, 2) as u16
}

/// The four-byte number at `addr`.
pub fn read_u32(ram: &[u8], addr: u64) -> (value: u32)
    requires
        addr + 4 <= ram@.len(),
    ensures
        value as nat == word(ram@, addr as int, 4),
{
    assert(ram@.len() == ram.len());
    proof {
        lemma_le_value_bound(ram@.subrange(addr as int, addr + 4));
        lemma_le_limits();
    }
    from_le(ram, addr as usize, 4) as u32
}

/// The eight-byte number at `addr`.
pub fn read_u64(ram: &[u8], addr: u64) -> (value: u64)
    requires
        addr + 8 <= ram@.len(),
    ensures
        value as nat == word(ram@, addr as int, 8),
{
    assert(ram@.len() == ram.len());
    from_le(ram, addr as usize, 8)
}

/// A number depends on its own bytes alone.
pub proof fn lemma_word_same(a: Seq<u8>, b: Seq<u8>, addr: int, n: int)
    requires
        in_ram(a, addr, n),
        a.len() == b.len(),
        forall|k: int| addr <= k < addr + n ==> #[trigger] a[k] == b[k],
    ensures
        word(a, addr, n) == word(b, addr, n),
{
    assert(a.subrange(addr, addr + n) =~= b.subrange(addr, addr + n));
}

/// A word that was stored reads back as it was stored.
pub proof fn law_read_back_u64(ram: Seq<u8>, addr: int, value: u64)
    requires
        in_ram(ram, addr, 8),
    ensures
        word(splice_u64(ram, addr, value), addr, 8) == value as nat,
{
    lemma_le_bytes_len(value as nat, 8);
    lemma_le_limits();
    lemma_le_decode_encode(value as nat, 8);
    assert(splice_u64(ram, addr, value).subrange(addr, addr + 8) =~= le_bytes(value as nat, 8));
}

/// A write leaves every number alone that it does not overlap.
pub proof fn law_write_elsewhere(ram: Seq<u8>, addr: int, bytes: Seq<u8>, other: int, n: int)
    requires
        in_ram(ram, addr, bytes.len() as int),
        in_ram(ram, other, n),
        other + n <= addr || addr + bytes.len() <= other,
    ensures
        word(splice(ram, addr, bytes), other, n) == word(ram, other, n),
{
    assert(splice(ram, addr, bytes).subrange(other, other + n) =~= ram.subrange(other, other + n));
}

/// A block lies in memory exactly where its first and its last byte do.
pub proof fn law_in_ram(ram: Seq<u8>, addr: int, n: int)
    ensures
        n > 0 ==> (in_ram(ram, addr, n) <==> 0 <= addr && addr + n - 1 < ram.len()),
        0 <= addr <= ram.len() ==> in_ram(ram, addr, 0),
{
}

/// What a copy leaves at address `i`: the copied byte within the copied block,
/// and everywhere else what was there. The size of memory stays.
pub proof fn law_copy(ram: Seq<u8>, addr: int, bytes: Seq<u8>, i: int)
    requires
        0 <= i < ram.len(),
    ensures
        splice(ram, addr, bytes).len() == ram.len(),
        addr <= i < addr + bytes.len() ==> splice(ram, addr, bytes)[i] == bytes[i - addr],
        i < addr || addr + bytes.len() <= i ==> splice(ram, addr, bytes)[i] == ram[i],
{
}

/// Cleared memory is zero for the length that was asked for.
pub proof fn law_cleared(ram: Seq<u8>, addr: int, n: nat, i: int)
    requires
        0 <= i < ram.len(),
    ensures
        splice(ram, addr, zeros(n)).len() == ram.len(),
        splice(ram, addr, zeros(n))[i] == if addr <= i < addr + n {
            0u8
        } else {
            ram[i]
        },
{
}

/// The numbers in memory, byte by byte, least significant first.
pub proof fn law_word_bytes(ram: Seq<u8>, addr: int)
    requires
        0 <= addr,
    ensures
        addr + 2 <= ram.len() ==> word(ram, addr, 2) == ram[addr] + 0x100 * ram[addr + 1],
        addr + 4 <= ram.len() ==> word(ram, addr, 4) == ram[addr] + 0x100 * ram[addr + 1] + 0x1_0000
            * ram[addr + 2] + 0x100_0000 * ram[addr + 3],
        addr + 8 <= ram.len() ==> word(ram, addr, 8) == ram[addr] + 0x100 * ram[addr + 1] + 0x1_0000
            * ram[addr + 2] + 0x100_0000 * ram[addr + 3] + 0x1_0000_0000 * ram[addr + 4]
            + 0x100_0000_0000 * ram[addr + 5] + 0x1_0000_0000_0000 * ram[addr + 6]
            + 0x100_0000_0000_0000 * ram[addr + 7],
{
    if addr + 2 <= ram.len() {
        law_le_widths(ram.subrange(addr, addr + 2));
    }
    if addr + 4 <= ram.len() {
        law_le_widths(ram.subrange(addr, addr + 4));
    }
    if addr + 8 <= ram.len() {
        law_le_widths(ram.subrange(addr, addr + 8));
    }
}

/// What storing a number leaves: its eight bytes in place, least significant
/// first, and everything else as it was.
pub proof fn law_store_u64(ram: Seq<u8>, addr: int, value: u64, i: int)
    requires
        in_ram(ram, addr, 8),
        0 <= i < ram.len(),
    ensures
        ({
            let s = splice_u64(ram, addr, value);
            &&& s.len() == ram.len()
            &&& value == s[addr] + 0x100 * s[addr + 1] + 0x1_0000 * s[addr + 2] + 0x100_0000 * s[addr
                + 3] + 0x1_0000_0000 * s[addr + 4] + 0x100_0000_0000 * s[addr + 5]
                + 0x1_0000_0000_0000 * s[addr + 6] + 0x100_0000_0000_0000 * s[addr + 7]
            &&& !(addr <= i < addr + 8) ==> s[i] == ram[i]
        }),
{
    law_read_back_u64(ram, addr, value);
    law_word_bytes(splice_u64(ram, addr, value), addr);
    lemma_le_bytes_len(value as nat, 8);
}

} // verus!
