//! The stack on which a Linux program starts.

use crate::memory::{write_bytes, write_u64};
use crate::program::LoadedElf;
use vstd::prelude::*;

use crate::memory::{law_read_back_u64, law_write_elsewhere, lemma_word_same, splice, splice_u64, word};
use crate::le::{le_bytes, lemma_le_bytes_len};

verus! {

pub const PROGRAM_STACK_TOP: u64 = 0x0300_0000;

/// Where the program's name lies.
pub const ARGV0_ADDR: u64 = 0x02ff_ffe0;

/// Where the sixteen bytes for `AT_RANDOM` lie.
pub const RANDOM_ADDR: u64 = 0x02ff_fff0;

/// Where the stack pointer starts.
pub const ENTRY_RSP: u64 = 0x02ff_ff20;

/// The program's name with its terminator: `hello`.
pub open spec fn program_name() -> Seq<u8> {
    seq![104u8, 101u8, 108u8, 108u8, 111u8, 0u8]
}

/// The words from the stack pointer on: argc, argv and its NULL, the NULL of an
/// empty envp, then the auxiliary vector in pairs.
pub open spec fn entry_vector(elf: LoadedElf) -> Seq<u64> {
    seq![
        1,
        ARGV0_ADDR,
        0,
        0,
        3,
        elf.phdr_vaddr,
        4,
        elf.phent,
        5,
        elf.phnum,
        6,
        4096,
        25,
        RANDOM_ADDR,
        9,
        elf.entry,
        23,
        0,
        0,
        0,
    ]
}

/// Memory with the words put one after another from `at` on.
pub open spec fn with_words(ram: Seq<u8>, at: int, words: Seq<u64>) -> Seq<u8>
    decreases words.len(),
{
    if words.len() == 0 {
        ram
    } else {
        splice_u64(
            with_words(ram, at, words.drop_last()),
            at + 8 * (words.len() - 1),
            words.last(),
        )
    }
}

/// Memory with the name and the random bytes that the vector points to.
pub open spec fn with_strings(ram: Seq<u8>) -> Seq<u8> {
    splice_u64(
        splice_u64(
            splice(ram, ARGV0_ADDR as int, program_name()),
            RANDOM_ADDR as int,
            0x243f_6a88_85a3_08d3,
        ),
        RANDOM_ADDR + 8,
        0x1319_8a2e_0370_7344,
    )
}

/// Memory with a process's entry stack.
pub open spec fn with_stack(ram: Seq<u8>, elf: LoadedElf) -> Seq<u8> {
    with_words(with_strings(ram), ENTRY_RSP as int, entry_vector(elf))
}

/// Builds the process-entry stack and returns the stack pointer, which points at
/// argc; argv, envp and the auxiliary vector follow, each with its terminator.
pub fn build_stack(ram: &mut [u8], elf: &LoadedElf) -> (rsp: u64)
    requires
        PROGRAM_STACK_TOP <= old(ram)@.len(),
    ensures
        final(ram)@ == with_stack(old(ram)@, *elf),
        rsp == ENTRY_RSP,
        rsp % 16 == 0,
{
    let argv0: u64 = PROGRAM_STACK_TOP - 32;
    let name: [u8; 6] = [104, 101, 108, 108, 111, 0];
    proof {
        assert(name@ =~= program_name());
    }
    write_bytes(ram, argv0, &name);
    let random: u64 = PROGRAM_STACK_TOP - 16;
    write_u64(ram, random, 0x243f_6a88_85a3_08d3);
    write_u64(ram, random + 8, 0x1319_8a2e_0370_7344);
    let ghost strings = ram@;
    let vector: [u64; 20] = [
        1,
        argv0,
        0,
        0,
        3,
        elf.phdr_vaddr,
        4,
        elf.phent,
        5,
        elf.phnum,
        6,
        4096,
        25,
        random,
        9,
        elf.entry,
        23,
        0,
        0,
        0,
    ];
    let rsp: u64 = (PROGRAM_STACK_TOP - 64 - 160) & !0xf;
    proof {
        assert(0x02ff_ff20u64 & !0xfu64 == 0x02ff_ff20u64) by (bit_vector);
        assert(vector@ =~= entry_vector(*elf));
    }
    let ghost words = vector@;
    proof {
        assert(words.take(0) =~= Seq::<u64>::empty());
    }
    let mut i: usize = 0;
    while i < 20
        invariant
            i <= 20,
            rsp == ENTRY_RSP,
            words == vector@,
            PROGRAM_STACK_TOP <= strings.len(),
            ram@.len() == strings.len(),
            ram@ == with_words(strings, rsp as int, words.take(i as int)),
        decreases 20 - i,
    {
        write_u64(ram, rsp + i as u64 * 8, vector[i]);
        i = i + 1;
        proof {
            let some = words.take(i as int);
            assert(some.drop_last() =~= words.take(i - 1));
        }
    }
    proof {
        assert(words.take(20) =~= words);
    }
    rsp
}

proof fn lemma_with_words(ram: Seq<u8>, at: int, words: Seq<u64>, k: int)
    requires
        0 <= at,
        at + 8 * words.len() <= ram.len(),
        0 <= k < words.len(),
    ensures
        word(with_words(ram, at, words), at + 8 * k, 8) == words[k] as nat,
    decreases words.len(),
{
    let inner = with_words(ram, at, words.drop_last());
    let last = at + 8 * (words.len() - 1);
    lemma_with_words_rest(ram, at, words.drop_last(), 0);
    if k == words.len() - 1 {
        law_read_back_u64(inner, last, words.last());
    } else {
        lemma_with_words(ram, at, words.drop_last(), k);
        lemma_le_bytes_len(words.last() as nat, 8);
        law_write_elsewhere(inner, last, le_bytes(words.last() as nat, 8), at + 8 * k, 8);
    }
}

proof fn lemma_with_words_rest(ram: Seq<u8>, at: int, words: Seq<u64>, addr: int)
    ensures
        with_words(ram, at, words).len() == ram.len(),
        0 <= addr < ram.len() && !(at <= addr < at + 8 * words.len()) ==> with_words(
            ram,
            at,
            words,
        )[addr] == ram[addr],
    decreases words.len(),
{
    if words.len() > 0 {
        lemma_with_words_rest(ram, at, words.drop_last(), addr);
        lemma_le_bytes_len(words.last() as nat, 8);
    }
}

/// The value of `key` in the auxiliary vector at `at`, of at most `n` pairs up
/// to the pair of type 0 that ends it.
pub open spec fn auxv(ram: Seq<u8>, at: int, n: nat, key: nat) -> Option<nat>
    decreases n,
{
    if n == 0 || word(ram, at, 8) == 0 {
        None
    } else if word(ram, at, 8) == key {
        Some(word(ram, at + 8, 8))
    } else {
        auxv(ram, at + 16, (n - 1) as nat, key)
    }
}

/// A program that walks its entry stack finds what it is due: one argument, its
/// name, an empty environment, and in the auxiliary vector the program headers,
/// the page size, where its sixteen random bytes lie, and the entry point of the
/// loaded file, with a pair of zeros at the end.
pub proof fn law_entry_stack(ram: Seq<u8>, elf: LoadedElf)
    requires
        PROGRAM_STACK_TOP <= ram.len(),
    ensures
        ({
            let s = with_stack(ram, elf);
            let sp = ENTRY_RSP as int;
            &&& word(s, sp, 8) == 1
            &&& word(s, sp + 8, 8) == ARGV0_ADDR
            &&& s.subrange(ARGV0_ADDR as int, ARGV0_ADDR + 6) == program_name()
            &&& sp == 0x02ff_ff20 && ARGV0_ADDR == 0x02ff_ffe0 && RANDOM_ADDR == 0x02ff_fff0
            &&& s[0x02ff_ffe0] == 0x68 && s[0x02ff_ffe1] == 0x65 && s[0x02ff_ffe2] == 0x6c
            &&& s[0x02ff_ffe3] == 0x6c && s[0x02ff_ffe4] == 0x6f && s[0x02ff_ffe5] == 0
            &&& word(s, sp + 16, 8) == 0
            &&& word(s, sp + 24, 8) == 0
            &&& auxv(s, sp + 32, 8, 3) == Some(elf.phdr_vaddr as nat)
            &&& auxv(s, sp + 32, 8, 4) == Some(elf.phent as nat)
            &&& auxv(s, sp + 32, 8, 5) == Some(elf.phnum as nat)
            &&& auxv(s, sp + 32, 8, 6) == Some(4096nat)
            &&& auxv(s, sp + 32, 8, 25) == Some(RANDOM_ADDR as nat)
            &&& auxv(s, sp + 32, 8, 9) == Some(elf.entry as nat)
            &&& auxv(s, sp + 32, 8, 23) == Some(0nat)
            &&& word(s, sp + 144, 8) == 0 && word(s, sp + 152, 8) == 0
            &&& word(s, RANDOM_ADDR as int, 8) == 0x243f_6a88_85a3_08d3
            &&& word(s, RANDOM_ADDR + 8, 8) == 0x1319_8a2e_0370_7344
        }),
{
    let strings = with_strings(ram);
    let words = entry_vector(elf);
    let s = with_stack(ram, elf);
    let sp = ENTRY_RSP as int;
    assert forall|k: int| 0 <= k < 20 implies word(s, sp + 8 * k, 8) == #[trigger] words[k] as nat by {
        lemma_with_words(strings, sp, words, k);
    }
    assert(words[0] == 1 && words[1] == ARGV0_ADDR && words[2] == 0 && words[3] == 0);
    assert(words[4] == 3 && words[6] == 4 && words[8] == 5 && words[10] == 6);
    assert(words[12] == 25 && words[14] == 9 && words[16] == 23 && words[18] == 0);
    assert(words[5] == elf.phdr_vaddr && words[7] == elf.phent && words[9] == elf.phnum);
    assert(words[11] == 4096 && words[13] == RANDOM_ADDR && words[15] == elf.entry);
    assert(words[17] == 0 && words[19] == 0);
    reveal_with_fuel(auxv, 9);
    assert forall|a: int| ARGV0_ADDR <= a < ARGV0_ADDR + 6 implies #[trigger] s[a]
        == program_name()[a - ARGV0_ADDR] by {
        lemma_with_words_rest(strings, sp, words, a);
        lemma_le_bytes_len(0x243f_6a88_85a3_08d3, 8);
        lemma_le_bytes_len(0x1319_8a2e_0370_7344, 8);
    }
    assert(s.len() == ram.len()) by {
        lemma_with_words_rest(strings, sp, words, 0);
    }
    assert(s.subrange(ARGV0_ADDR as int, ARGV0_ADDR + 6) =~= program_name());
    let named = splice(ram, ARGV0_ADDR as int, program_name());
    let half = splice_u64(named, RANDOM_ADDR as int, 0x243f_6a88_85a3_08d3);
    law_read_back_u64(named, RANDOM_ADDR as int, 0x243f_6a88_85a3_08d3);
    law_read_back_u64(half, RANDOM_ADDR + 8, 0x1319_8a2e_0370_7344);
    lemma_le_bytes_len(0x1319_8a2e_0370_7344, 8);
    law_write_elsewhere(
        half,
        RANDOM_ADDR + 8,
        le_bytes(0x1319_8a2e_0370_7344, 8),
        RANDOM_ADDR as int,
        8,
    );
    assert forall|a: int| RANDOM_ADDR <= a < RANDOM_ADDR + 16 implies #[trigger] s[a]
        == strings[a] by {
        lemma_with_words_rest(strings, sp, words, a);
    }
    lemma_word_same(s, strings, RANDOM_ADDR as int, 8);
    lemma_word_same(s, strings, RANDOM_ADDR + 8, 8);
}

/// Building the stack changes the twenty words from the stack pointer on, the
/// name and the random bytes, and nothing else.
pub proof fn law_stack_stays_inside(ram: Seq<u8>, elf: LoadedElf, addr: int)
    requires
        0 <= addr < ram.len(),
        !(ENTRY_RSP <= addr < ENTRY_RSP + 160),
        !(ARGV0_ADDR <= addr < ARGV0_ADDR + 6),
        !(RANDOM_ADDR <= addr < RANDOM_ADDR + 16),
    ensures
        with_stack(ram, elf).len() == ram.len(),
        with_stack(ram, elf)[addr] == ram[addr],
{
    lemma_with_words_rest(with_strings(ram), ENTRY_RSP as int, entry_vector(elf), addr);
    lemma_le_bytes_len(0x243f_6a88_85a3_08d3, 8);
    lemma_le_bytes_len(0x1319_8a2e_0370_7344, 8);
}

} // verus!
