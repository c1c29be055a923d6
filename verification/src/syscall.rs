//! The system calls of a hosted Linux program: output goes to the serial line,
//! `brk` and `mmap` only ever move on, and leaving becomes the guest's exit.

use crate::abi::SCRATCH_ADDR;
use crate::memory::{read_u64, write_u64};
use crate::program::{align_page, BRK_MAX};
use crate::runtime::{exit, outb, Ports, Serial};
use crate::text::{push_decimal, push_str, push_unsigned};
use vstd::prelude::*;

use crate::abi::{
    EXIT_PORT, FB_ADDR, FB_HEIGHT, FB_WIDTH, MEM_SIZE, SERIAL_PORT, STATE_ADDR, STATE_SIZE,
};
use crate::le::{lemma_le_limits, lemma_le_value_bound};
use crate::memory::{in_ram, law_read_back_u64, law_store_u64, splice_u64, word};
use crate::program::{law_page_up, page_up};
use crate::runtime::{serial_writes, PortWrite};
use crate::stack::{ENTRY_RSP, PROGRAM_STACK_TOP};
use crate::text::{decimal, is_number_line, lemma_number_line, text};
use crate::vmm::{exit_message, hosted, law_exit_ends_session, law_serial_reaches_stdout};

verus! {

/// Where `mmap` starts to hand out memory.
pub const MMAP_BASE: u64 = 0x0280_0000;

/// The end of what `mmap` hands out.
pub const MMAP_MAX: u64 = 0x02f0_0000;

/// Where the entry stub leaves the program's registers: call number, three
/// arguments, then the fourth.
pub const FRAME: u64 = SCRATCH_ADDR;

/// The stack on which calls are handled.
pub const SYSCALL_STACK_TOP: u64 = 0x0181_1000;

pub const ENOTTY: u64 = 0xffff_ffff_ffff_ffe7;

pub const EBADF: u64 = 0xffff_ffff_ffff_fff7;

pub const EINVAL: u64 = 0xffff_ffff_ffff_ffea;

pub const ENOMEM: u64 = 0xffff_ffff_ffff_fff4;

pub const ENOSYS: u64 = 0xffff_ffff_ffff_ffda;

/// The memory that serves a hosted program. The frame of the entry stub, ten
/// words, and above it the stack on which calls are handled, lie in the scratch
/// region. From bottom to top follow one another, and end within guest memory:
/// the program region with the heap, the mailbox, the framebuffer, the scratch
/// region, the arena of `mmap`, and the program's stack.
pub proof fn law_hosted_layout()
    ensures
        FRAME == SCRATCH_ADDR,
        SYSCALL_STACK_TOP == SCRATCH_ADDR + 0x11000,
        SYSCALL_STACK_TOP % 16 == 0,
        SCRATCH_ADDR <= FRAME,
        FRAME + 80 <= SYSCALL_STACK_TOP <= SCRATCH_ADDR + 4 * FB_WIDTH * FB_HEIGHT,
        BRK_MAX <= STATE_ADDR,
        STATE_ADDR + STATE_SIZE <= FB_ADDR,
        FB_ADDR + 4 * FB_WIDTH * FB_HEIGHT <= SCRATCH_ADDR,
        SCRATCH_ADDR + 4 * FB_WIDTH * FB_HEIGHT <= MMAP_BASE,
        MMAP_BASE < MMAP_MAX < ENTRY_RSP,
        ENTRY_RSP < PROGRAM_STACK_TOP <= MEM_SIZE,
        MMAP_BASE == 0x0280_0000 && MMAP_MAX == 0x02f0_0000 && PROGRAM_STACK_TOP == 0x0300_0000,
{
}

/// The error results are the negated error numbers of Linux.
pub proof fn law_error_numbers()
    ensures
        signed(EBADF) == -9,
        signed(ENOMEM) == -12,
        signed(EINVAL) == -22,
        signed(ENOTTY) == -25,
        signed(ENOSYS) == -38,
{
}

/// What outlives a call: the end of the heap and the start of unmapped memory.
#[derive(Debug, Clone, Copy, PartialEq, Eq, Structural)]
pub struct Syscalls {
    pub brk: u64,
    pub mmap: u64,
}

/// A call: its number and its first four arguments.
#[derive(Debug, Clone, Copy, PartialEq, Eq, Structural)]
pub struct Call {
    pub nr: u64,
    pub a1: u64,
    pub a2: u64,
    pub a3: u64,
    pub a4: u64,
}

/// How a call ends.
#[derive(Debug, Clone, Copy, PartialEq, Eq, Structural)]
pub enum Outcome {
    /// The program goes on with this result.
    Return(u64),
    /// The FS base takes this value, and the program goes on with result 0.
    SetFsBase(u64),
    /// The program has left; the exit request is in the port log.
    Exit,
    /// The call reached outside memory or beyond the largest number; the guest
    /// cannot go on.
    Fault,
}

/// The call that the entry stub left in its frame.
pub open spec fn call_at(ram: Seq<u8>) -> Call {
    Call {
        nr: word(ram, FRAME as int, 8) as u64,
        a1: word(ram, FRAME + 8, 8) as u64,
        a2: word(ram, FRAME + 16, 8) as u64,
        a3: word(ram, FRAME + 24, 8) as u64,
        a4: word(ram, FRAME + 32, 8) as u64,
    }
}

/// Every one of the `count` bytes at `buf` lies in memory.
pub open spec fn readable(ram: Seq<u8>, buf: int, count: int) -> bool {
    count == 0 || in_ram(ram, buf, count)
}

/// As many of the `count` bytes at `buf` as lie in memory.
pub open spec fn readable_part(ram: Seq<u8>, buf: int, count: int) -> Seq<u8> {
    if buf >= ram.len() {
        Seq::empty()
    } else if buf + count > ram.len() {
        ram.subrange(buf, ram.len() as int)
    } else {
        ram.subrange(buf, buf + count)
    }
}

/// What `writev` sends for the buffers from number `i` on, and the sum of their
/// lengths; `None` where it could not go on.
pub open spec fn gather(ram: Seq<u8>, iov: int, n: int, i: int, total: nat) -> (
    Seq<u8>,
    Option<nat>,
)
    decreases n - i,
{
    let at = iov + i * 16;
    let base = word(ram, at, 8) as int;
    let len = word(ram, at + 8, 8) as int;
    if i >= n {
        (Seq::empty(), Some(total))
    } else if !in_ram(ram, at, 16) {
        (Seq::empty(), None)
    } else if !readable(ram, base, len) || total + len > u64::MAX {
        (readable_part(ram, base, len), None)
    } else {
        let (rest, sum) = gather(ram, iov, n, i + 1, (total + len) as nat);
        (readable_part(ram, base, len) + rest, sum)
    }
}

/// `mmap` with these flags asks for anonymous memory.
pub open spec fn anonymous(flags: u64) -> bool {
    (flags / 32) % 2 == 1
}

/// The bytes that an `mmap` call takes: its length in whole pages.
pub open spec fn mmap_len(call: Call) -> int {
    page_up(call.a2 as int)
}

/// An `mmap` call that moves the start of unmapped memory.
pub open spec fn maps(st: Syscalls, call: Call) -> bool {
    &&& call.nr == 9
    &&& anonymous(call.a4)
    &&& call.a2 + 0xfff <= u64::MAX
    &&& st.mmap + mmap_len(call) <= u64::MAX
}

/// What a call leaves behind: `brk` takes any address from the current one up to
/// `BRK_MAX`, and `mmap` takes its pages even where it then has to refuse.
pub open spec fn next_state(st: Syscalls, call: Call) -> Syscalls {
    if call.nr == 12 && st.brk <= call.a1 < BRK_MAX {
        Syscalls { brk: call.a1, ..st }
    } else if maps(st, call) {
        Syscalls { mmap: (st.mmap + mmap_len(call)) as u64, ..st }
    } else {
        st
    }
}

/// The number that the bits of `v` stand for as a signed one.
pub open spec fn signed(v: u64) -> int {
    if v <= i64::MAX {
        v as int
    } else {
        v - 0x1_0000_0000_0000_0000
    }
}

/// The line that announces the program's exit.
pub open spec fn exited_message(status: u64) -> Seq<u8> {
    text("[kernel] program exited with ") + decimal(signed(status)) + seq![10u8]
}

/// The line that announces a call that is not known here.
pub open spec fn unhandled_message(nr: u64) -> Seq<u8> {
    text("[kernel] unhandled syscall ") + decimal(nr as int) + seq![10u8]
}

/// What a call sends over the serial line.
pub open spec fn sent(ram: Seq<u8>, call: Call) -> Seq<u8> {
    if call.nr == 1 && (call.a1 == 1 || call.a1 == 2) {
        readable_part(ram, call.a2 as int, call.a3 as int)
    } else if call.nr == 20 && (call.a1 == 1 || call.a1 == 2) {
        gather(ram, call.a2 as int, call.a3 as int, 0, 0).0
    } else if call.nr == 60 || call.nr == 231 {
        exited_message(call.a1)
    } else if known(call.nr) {
        Seq::empty()
    } else {
        unhandled_message(call.nr)
    }
}

/// The calls that are answered.
pub open spec fn known(nr: u64) -> bool {
    ||| nr == 1 || nr == 20 || nr == 16 || nr == 12 || nr == 9 || nr == 11 || nr == 158
    ||| nr == 218 || nr == 13 || nr == 14 || nr == 39 || nr == 186
    ||| nr == 102 || nr == 104 || nr == 107 || nr == 108 || nr == 60 || nr == 231
}

/// How a call ends.
pub open spec fn outcome(st: Syscalls, ram: Seq<u8>, call: Call) -> Outcome {
    if call.nr == 1 || call.nr == 20 {
        // write, writev
        if call.a1 != 1 && call.a1 != 2 {
            Outcome::Return(EBADF)
        } else if call.nr == 1 {
            if readable(ram, call.a2 as int, call.a3 as int) {
                Outcome::Return(call.a3)
            } else {
                Outcome::Fault
            }
        } else {
            match gather(ram, call.a2 as int, call.a3 as int, 0, 0).1 {
                Some(total) => Outcome::Return(total as u64),
                None => Outcome::Fault,
            }
        }
    } else if call.nr == 16 {
        // ioctl: the output is no terminal
        Outcome::Return(ENOTTY)
    } else if call.nr == 12 {
        // brk
        Outcome::Return(next_state(st, call).brk)
    } else if call.nr == 9 {
        // mmap
        if !anonymous(call.a4) {
            Outcome::Return(ENOSYS)
        } else if !maps(st, call) {
            Outcome::Fault
        } else if st.mmap + mmap_len(call) > MMAP_MAX {
            Outcome::Return(ENOMEM)
        } else {
            Outcome::Return(st.mmap)
        }
    } else if call.nr == 158 {
        // arch_prctl: ARCH_SET_FS, ARCH_GET_FS
        if call.a1 == 0x1002 {
            Outcome::SetFsBase(call.a2)
        } else if call.a1 == 0x1003 {
            if in_ram(ram, call.a2 as int, 8) {
                Outcome::Return(0)
            } else {
                Outcome::Fault
            }
        } else {
            Outcome::Return(EINVAL)
        }
    } else if call.nr == 218 || call.nr == 39 || call.nr == 186 {
        // set_tid_address, getpid, gettid
        Outcome::Return(1)
    } else if call.nr == 60 || call.nr == 231 {
        // exit, exit_group
        Outcome::Exit
    } else if known(call.nr) {
        // munmap, rt_sigaction, rt_sigprocmask, getuid, getgid, geteuid, getegid
        Outcome::Return(0)
    } else {
        Outcome::Return(ENOSYS)
    }
}

/// The port writes of a call.
pub open spec fn port_writes(ram: Seq<u8>, call: Call) -> Seq<PortWrite> {
    if call.nr == 60 || call.nr == 231 {
        serial_writes(sent(ram, call)).push(
            PortWrite { port: EXIT_PORT, value: (call.a1 % 256) as u8 },
        )
    } else {
        serial_writes(sent(ram, call))
    }
}

/// Memory after a call: only `ARCH_GET_FS` stores anything.
pub open spec fn ram_after(ram: Seq<u8>, fs_base: u64, call: Call) -> Seq<u8> {
    if call.nr == 158 && call.a1 == 0x1003 && in_ram(ram, call.a2 as int, 8) {
        splice_u64(ram, call.a2 as int, fs_base)
    } else {
        ram
    }
}

/// Sends the `count` bytes at `buf` over the serial line, up to the first that
/// lies outside memory, and says whether all were sent.
pub fn write_out(ports: &mut Ports, ram: &[u8], buf: u64, count: u64) -> (complete: bool)
    ensures
        complete == readable(ram@, buf as int, count as int),
        final(ports)@ == old(ports)@ + serial_writes(
            readable_part(ram@, buf as int, count as int),
        ),
        buf + count <= ram@.len() ==> complete && final(ports)@ == old(ports)@ + serial_writes(
            ram@.subrange(buf as int, buf + count),
        ),
{
    assert(ram@.len() == ram.len());
    let size: u64 = ram.len() as u64;
    if buf >= size {
        proof {
            assert(ports@ + serial_writes(Seq::<u8>::empty()) =~= ports@);
            if buf + count <= ram@.len() {
                assert(ram@.subrange(buf as int, buf + count) =~= Seq::<u8>::empty());
            }
        }
        return count == 0;
    }
    let whole: bool = count <= size - buf;
    let n: u64 = if whole {
        count
    } else {
        size - buf
    };
    let mut i: u64 = 0;
    proof {
        assert(ports@ + serial_writes(ram@.subrange(buf as int, buf as int)) =~= ports@);
    }
    while i < n
        invariant
            i <= n,
            buf + n <= ram@.len() <= usize::MAX,
            ports@ == old(ports)@ + serial_writes(ram@.subrange(buf as int, buf + i)),
        decreases n - i,
    {
        outb(ports, SERIAL_PORT, ram[(buf + i) as usize]);
        i = i + 1;
        proof {
            assert(ports@ =~= old(ports)@ + serial_writes(ram@.subrange(buf as int, buf + i)));
        }
    }
    whole
}

fn write_vector(ports: &mut Ports, ram: &[u8], iov: u64, n: u64) -> (total: Option<u64>)
    ensures
        final(ports)@ == old(ports)@ + serial_writes(gather(ram@, iov as int, n as int, 0, 0).0),
        match gather(ram@, iov as int, n as int, 0, 0).1 {
            Some(sum) => total == Some(sum as u64) && sum <= u64::MAX,
            None => total is None,
        },
{
    assert(ram@.len() == ram.len());
    let size: u128 = ram.len() as u128;
    let mut total: u64 = 0;
    let mut i: u64 = 0;
    let ghost all = gather(ram@, iov as int, n as int, 0, 0);
    let ghost mut done: Seq<u8> = Seq::empty();
    proof {
        assert(ports@ + serial_writes(done) =~= ports@);
        assert(done + all.0 =~= all.0);
    }
    while i < n
        invariant
            i <= n,
            size == ram@.len(),
            size <= u64::MAX,
            all == gather(ram@, iov as int, n as int, 0, 0),
            ports@ == old(ports)@ + serial_writes(done),
            all.0 == done + gather(ram@, iov as int, n as int, i as int, total as nat).0,
            all.1 == gather(ram@, iov as int, n as int, i as int, total as nat).1,
        decreases n - i,
    {
        let at: u128 = iov as u128 + i as u128 * 16;
        if at > size || size - at < 16 {
            proof {
                assert(all.0 =~= done);
            }
            return None;
        }
        let base: u64 = read_u64(ram, at as u64);
        let len: u64 = read_u64(ram, at as u64 + 8);
        let ghost part = readable_part(ram@, base as int, len as int);
        let complete: bool = write_out(ports, ram, base, len);
        proof {
            assert(ports@ =~= old(ports)@ + serial_writes(done + part));
        }
        if !complete || len > u64::MAX - total {
            proof {
                assert(all.0 =~= done + part);
            }
            return None;
        }
        proof {
            let rest = gather(ram@, iov as int, n as int, i + 1, (total + len) as nat).0;
            assert(done + (part + rest) =~= (done + part) + rest);
            done = done + part;
        }
        total = total + len;
        i = i + 1;
    }
    proof {
        assert(all.0 =~= done);
    }
    Some(total)
}

fn read_call(ram: &[u8]) -> (call: Call)
    requires
        FRAME + 40 <= ram@.len(),
    ensures
        call == call_at(ram@),
{
    Call {
        nr: read_u64(ram, FRAME),
        a1: read_u64(ram, FRAME + 8),
        a2: read_u64(ram, FRAME + 16),
        a3: read_u64(ram, FRAME + 24),
        a4: read_u64(ram, FRAME + 32),
    }
}

fn announce_exit(ports: &mut Ports, status: u64)
    ensures
        final(ports)@ == old(ports)@ + serial_writes(exited_message(status)).push(
            PortWrite { port: EXIT_PORT, value: (status % 256) as u8 },
        ),
{
    let value: i64 = if status <= 0x7fff_ffff_ffff_ffff {
        status as i64
    } else {
        -1 - (u64::MAX - status) as i64
    };
    let mut line: Vec<u8> = Vec::new();
    push_str(&mut line, "[kernel] program exited with ");
    push_decimal(&mut line, value);
    line.push(10);
    proof {
        assert(line@ =~= exited_message(status));
    }
    let mut serial: Serial = Serial;
    serial.write_bytes(ports, line.as_slice());
    exit(ports, (status % 256) as u8);
    proof {
        assert(ports@ =~= old(ports)@ + serial_writes(exited_message(status)).push(
            PortWrite { port: EXIT_PORT, value: (status % 256) as u8 },
        ));
    }
}

fn announce_unhandled(ports: &mut Ports, nr: u64)
    ensures
        final(ports)@ == old(ports)@ + serial_writes(unhandled_message(nr)),
{
    let mut line: Vec<u8> = Vec::new();
    push_str(&mut line, "[kernel] unhandled syscall ");
    push_unsigned(&mut line, nr);
    line.push(10);
    proof {
        assert(line@ =~= unhandled_message(nr));
    }
    let mut serial: Serial = Serial;
    serial.write_bytes(ports, line.as_slice());
}

impl Syscalls {
    /// The state in which a program starts whose heap begins at `brk`.
    pub fn new(brk: u64) -> (st: Syscalls)
        ensures
            st == (Syscalls { brk, mmap: MMAP_BASE }),
    {
        Syscalls { brk, mmap: MMAP_BASE }
    }

    fn map_pages(&mut self, call: Call) -> (result: Outcome)
        requires
            call.nr == 9,
        ensures
            *final(self) == next_state(*old(self), call),
            result == outcome(*old(self), Seq::empty(), call),
    {
        let flags: u64 = call.a4;
        assert(flags & 0x20 == 0 <==> (flags / 32) % 2 == 0) by (bit_vector);
        if flags & 0x20 == 0 {
            return Outcome::Return(ENOSYS);
        }
        if call.a2 > u64::MAX - 0xfff {
            return Outcome::Fault;
        }
        let len: u64 = align_page(call.a2);
        if len > u64::MAX - self.mmap {
            return Outcome::Fault;
        }
        let addr: u64 = self.mmap;
        self.mmap = addr + len;
        if addr + len > MMAP_MAX {
            Outcome::Return(ENOMEM)
        } else {
            Outcome::Return(addr)
        }
    }

    /// Handles the call that the entry stub left in its frame. `fs_base` is the
    /// current FS base.
    pub fn syscall_handler(&mut self, ports: &mut Ports, ram: &mut [u8], fs_base: u64) -> (result:
        Outcome)
        requires
            FRAME + 40 <= old(ram)@.len(),
        ensures
            *final(self) == next_state(*old(self), call_at(old(ram)@)),
            final(ports)@ == old(ports)@ + port_writes(old(ram)@, call_at(old(ram)@)),
            final(ram)@ == ram_after(old(ram)@, fs_base, call_at(old(ram)@)),
            result == outcome(*old(self), old(ram)@, call_at(old(ram)@)),
    {
        let call: Call = read_call(ram);
        proof {
            assert(ports@ + serial_writes(Seq::<u8>::empty()) =~= ports@);
            assert(ram@.len() == ram.len());
        }
        match call.nr {
            1 => {
                if call.a1 != 1 && call.a1 != 2 {
                    Outcome::Return(EBADF)
                } else if write_out(ports, ram, call.a2, call.a3) {
                    Outcome::Return(call.a3)
                } else {
                    Outcome::Fault
                }
            },
            20 => {
                if call.a1 != 1 && call.a1 != 2 {
                    Outcome::Return(EBADF)
                } else {
                    match write_vector(ports, ram, call.a2, call.a3) {
                        Some(total) => Outcome::Return(total),
                        None => Outcome::Fault,
                    }
                }
            },
            16 => Outcome::Return(ENOTTY),
            12 => {
                if call.a1 >= self.brk && call.a1 < BRK_MAX {
                    self.brk = call.a1;
                }
                Outcome::Return(self.brk)
            },
            9 => self.map_pages(call),
            11 => Outcome::Return(0),
            158 => match call.a1 {
                0x1002 => Outcome::SetFsBase(call.a2),
                0x1003 => {
                    if ram.len() < 8 || call.a2 > ram.len() as u64 - 8 {
                        Outcome::Fault
                    } else {
                        write_u64(ram, call.a2, fs_base);
                        Outcome::Return(0)
                    }
                },
                _ => Outcome::Return(EINVAL),
            },
            218 => Outcome::Return(1),
            13 | 14 => Outcome::Return(0),
            39 | 186 => Outcome::Return(1),
            102 | 104 | 107 | 108 => Outcome::Return(0),
            60 | 231 => {
                announce_exit(ports, call.a1);
                Outcome::Exit
            },
            _ => {
                announce_unhandled(ports, call.nr);
                Outcome::Return(ENOSYS)
            },
        }
    }
}

/// The state after a sequence of calls.
pub open spec fn run(st: Syscalls, calls: Seq<Call>) -> Syscalls
    decreases calls.len(),
{
    if calls.len() == 0 {
        st
    } else {
        next_state(run(st, calls.drop_last()), calls.last())
    }
}

/// Whatever a program calls, the end of its heap never moves back, and never
/// passes `BRK_MAX`.
pub proof fn law_brk_only_grows(st: Syscalls, calls: Seq<Call>, i: int, j: int)
    requires
        st.brk <= BRK_MAX,
        0 <= i <= j <= calls.len(),
    ensures
        run(st, calls.take(i)).brk <= run(st, calls.take(j)).brk <= BRK_MAX,
    decreases j,
{
    if j > 0 {
        assert(calls.take(j).drop_last() =~= calls.take(j - 1));
        if i < j {
            law_brk_only_grows(st, calls, i, j - 1);
        } else {
            law_brk_only_grows(st, calls, j - 1, j - 1);
        }
    }
}

/// An `mmap` call that is given memory: from `st.mmap` on, `mmap_len` bytes.
pub open spec fn granted(st: Syscalls, call: Call) -> bool {
    maps(st, call) && st.mmap + mmap_len(call) <= MMAP_MAX
}

/// Memory is given exactly where `mmap` returns neither an error nor a fault,
/// and the result is where it starts.
pub proof fn law_granted_is_returned(st: Syscalls, ram: Seq<u8>, call: Call)
    requires
        call.nr == 9,
    ensures
        granted(st, call) ==> outcome(st, ram, call) == Outcome::Return(st.mmap),
        !granted(st, call) ==> outcome(st, ram, call) == Outcome::Return(ENOSYS) || outcome(
            st,
            ram,
            call,
        ) == Outcome::Return(ENOMEM) || outcome(st, ram, call) == Outcome::Fault,
{
}

proof fn lemma_mmap_grows(st: Syscalls, calls: Seq<Call>, i: int, j: int)
    requires
        0 <= i <= j <= calls.len(),
        st.mmap % 0x1000 == 0,
    ensures
        run(st, calls.take(i)).mmap <= run(st, calls.take(j)).mmap,
        run(st, calls.take(j)).mmap % 0x1000 == 0,
    decreases j,
{
    if j > 0 {
        let some = calls.take(j);
        assert(some.drop_last() =~= calls.take(j - 1));
        if i < j {
            lemma_mmap_grows(st, calls, i, j - 1);
        } else {
            lemma_mmap_grows(st, calls, j - 1, j - 1);
        }
    }
}

/// Whatever a program calls in between, no two pieces of memory that it is given
/// overlap: the later one starts after the earlier one's end. Each consists of
/// whole pages and lies in the arena, so apart from heap and stack.
pub proof fn law_mappings_apart(brk: u64, calls: Seq<Call>, i: int, j: int)
    requires
        0 <= i < j < calls.len(),
        granted(run(Syscalls { brk, mmap: MMAP_BASE }, calls.take(i)), calls[i]),
        granted(run(Syscalls { brk, mmap: MMAP_BASE }, calls.take(j)), calls[j]),
    ensures
        ({
            let first = run(Syscalls { brk, mmap: MMAP_BASE }, calls.take(i)).mmap;
            let second = run(Syscalls { brk, mmap: MMAP_BASE }, calls.take(j)).mmap;
            &&& first + mmap_len(calls[i]) <= second
            &&& first % 0x1000 == 0 && second % 0x1000 == 0
            &&& BRK_MAX < MMAP_BASE <= first
            &&& second + mmap_len(calls[j]) <= MMAP_MAX < crate::stack::ENTRY_RSP
        }),
{
    let st = Syscalls { brk, mmap: MMAP_BASE };
    lemma_mmap_grows(st, calls, 0, i);
    lemma_mmap_grows(st, calls, i + 1, j);
    assert(calls.take(0) =~= Seq::<Call>::empty());
    assert(calls.take(i + 1).drop_last() =~= calls.take(i));
}

/// `write` and `writev` report as many bytes as they send.
pub proof fn law_write_returns_length(st: Syscalls, ram: Seq<u8>, call: Call, n: u64)
    requires
        call.nr == 1 || call.nr == 20,
        call.a1 == 1 || call.a1 == 2,
        outcome(st, ram, call) == Outcome::Return(n),
    ensures
        sent(ram, call).len() == n,
{
    if call.nr == 20 {
        lemma_gather_len(ram, call.a2 as int, call.a3 as int, 0, 0);
    }
}

proof fn lemma_gather_len(ram: Seq<u8>, iov: int, n: int, i: int, total: nat)
    requires
        total <= u64::MAX,
    ensures
        gather(ram, iov, n, i, total).1 matches Some(sum) ==> sum == total + gather(
            ram,
            iov,
            n,
            i,
            total,
        ).0.len() && sum <= u64::MAX,
    decreases n - i,
{
    if i < n {
        let at = iov + i * 16;
        let len = word(ram, at + 8, 8);
        if total + len <= u64::MAX {
            lemma_gather_len(ram, iov, n, i + 1, (total + len) as nat);
        }
    }
}

/// Output to a descriptor other than 1 and 2 is refused, and nothing else
/// happens.
pub proof fn law_bad_descriptor(st: Syscalls, ram: Seq<u8>, fs_base: u64, call: Call)
    requires
        call.nr == 1 || call.nr == 20,
        call.a1 != 1 && call.a1 != 2,
    ensures
        outcome(st, ram, call) == Outcome::Return(EBADF),
        next_state(st, call) == st,
        port_writes(ram, call).len() == 0,
        ram_after(ram, fs_base, call) == ram,
{
}

/// What a running program sends appears on the host's standard output, and the
/// machine runs on.
pub proof fn law_output_reaches_host(log: Seq<PortWrite>, ram: Seq<u8>, call: Call)
    requires
        hosted(log).ended is None,
        call.nr != 60 && call.nr != 231,
    ensures
        hosted(log + port_writes(ram, call)).stdout == hosted(log).stdout + sent(ram, call),
        hosted(log + port_writes(ram, call)).ended is None,
{
    law_serial_reaches_stdout(log, sent(ram, call));
}

/// When the program exits, the machine ends with the low byte of its status,
/// after the kernel's line and the host's.
pub proof fn law_exit_reaches_host(log: Seq<PortWrite>, ram: Seq<u8>, call: Call)
    requires
        hosted(log).ended is None,
        call.nr == 60 || call.nr == 231,
    ensures
        hosted(log + port_writes(ram, call)).ended == Some((call.a1 % 256) as u8),
        hosted(log + port_writes(ram, call)).stdout == hosted(log).stdout + exited_message(call.a1)
            + exit_message((call.a1 % 256) as u8),
{
    let code = (call.a1 % 256) as u8;
    let line = exited_message(call.a1);
    law_serial_reaches_stdout(log, line);
    let before = log + serial_writes(line);
    law_exit_ends_session(before, code, Seq::empty());
    assert(log + port_writes(ram, call) =~= before.push(PortWrite { port: EXIT_PORT, value: code })
        + Seq::<PortWrite>::empty());
}

/// The entry stub leaves call number and arguments as five words, one after the
/// other, at the start of the scratch region.
pub proof fn law_call_layout(ram: Seq<u8>)
    requires
        0x0180_0000 + 40 <= ram.len(),
    ensures
        call_at(ram).nr as nat == word(ram, 0x0180_0000, 8),
        call_at(ram).a1 as nat == word(ram, 0x0180_0008, 8),
        call_at(ram).a2 as nat == word(ram, 0x0180_0010, 8),
        call_at(ram).a3 as nat == word(ram, 0x0180_0018, 8),
        call_at(ram).a4 as nat == word(ram, 0x0180_0020, 8),
{
    lemma_le_limits();
    lemma_le_value_bound(ram.subrange(0x0180_0000, 0x0180_0008));
    lemma_le_value_bound(ram.subrange(0x0180_0008, 0x0180_0010));
    lemma_le_value_bound(ram.subrange(0x0180_0010, 0x0180_0018));
    lemma_le_value_bound(ram.subrange(0x0180_0018, 0x0180_0020));
    lemma_le_value_bound(ram.subrange(0x0180_0020, 0x0180_0028));
}

/// `write` to descriptor 1 or 2 sends the bytes of memory at the buffer, as they
/// are, and returns their number. Of a buffer that leaves memory it sends the part
/// that lies inside, and the guest cannot go on.
pub proof fn law_write_sends_buffer(st: Syscalls, ram: Seq<u8>, call: Call)
    requires
        call.nr == 1,
        call.a1 == 1 || call.a1 == 2,
    ensures
        call.a2 + call.a3 <= ram.len() ==> {
            &&& sent(ram, call) == ram.subrange(call.a2 as int, call.a2 + call.a3)
            &&& outcome(st, ram, call) == Outcome::Return(call.a3)
        },
        call.a3 == 0 ==> sent(ram, call).len() == 0 && outcome(st, ram, call) == Outcome::Return(0),
        call.a3 > 0 && call.a2 + call.a3 > ram.len() ==> {
            &&& outcome(st, ram, call) == Outcome::Fault
            &&& call.a2 < ram.len() ==> sent(ram, call) == ram.subrange(
                call.a2 as int,
                ram.len() as int,
            )
            &&& call.a2 >= ram.len() ==> sent(ram, call).len() == 0
        },
        port_writes(ram, call) == serial_writes(sent(ram, call)),
{
    if call.a2 >= ram.len() && call.a2 + call.a3 <= ram.len() {
        assert(sent(ram, call) =~= ram.subrange(call.a2 as int, call.a2 + call.a3));
    }
}

/// Entry number `i` of a `writev` vector lies in memory, and so does its buffer:
/// address and length stand in two words.
pub open spec fn good_buffer(ram: Seq<u8>, iov: int, i: int) -> bool {
    let at = iov + 16 * i;
    let len = word(ram, at + 8, 8);
    &&& at + 16 <= ram.len()
    &&& len == 0 || word(ram, at, 8) + len <= ram.len()
}

/// The bytes of buffer number `i`.
pub open spec fn buffer(ram: Seq<u8>, iov: int, i: int) -> Seq<u8> {
    let base = word(ram, iov + 16 * i, 8) as int;
    let len = word(ram, iov + 16 * i + 8, 8) as int;
    if len == 0 {
        Seq::empty()
    } else {
        ram.subrange(base, base + len)
    }
}

/// The buffers from number `i` to number `k`, one after the other.
pub open spec fn buffers(ram: Seq<u8>, iov: int, i: int, k: int) -> Seq<u8> {
    Seq::new((k - i) as nat, |j: int| buffer(ram, iov, i + j)).flatten()
}

proof fn lemma_gather_prefix(ram: Seq<u8>, iov: int, n: int, i: int, k: int, total: nat)
    requires
        0 <= iov,
        0 <= i <= k <= n,
        forall|j: int| i <= j < k ==> #[trigger] good_buffer(ram, iov, j),
        total + buffers(ram, iov, i, k).len() <= u64::MAX,
    ensures
        ({
            let part = buffers(ram, iov, i, k);
            let after = gather(ram, iov, n, k, total + part.len());
            &&& gather(ram, iov, n, i, total).0 == part + after.0
            &&& gather(ram, iov, n, i, total).1 == after.1
        }),
    decreases k - i,
{
    let pieces = Seq::new((k - i) as nat, |j: int| buffer(ram, iov, i + j));
    if i == k {
        assert(pieces =~= Seq::<Seq<u8>>::empty());
        assert(buffers(ram, iov, i, k) =~= Seq::<u8>::empty());
        assert(Seq::<u8>::empty() + gather(ram, iov, n, k, total).0 =~= gather(
            ram,
            iov,
            n,
            k,
            total,
        ).0);
    } else {
        assert(good_buffer(ram, iov, i));
        let rest = Seq::new((k - i - 1) as nat, |j: int| buffer(ram, iov, i + 1 + j));
        assert(pieces.drop_first() =~= rest);
        assert(pieces.first() == buffer(ram, iov, i));
        let first = buffer(ram, iov, i);
        let later = buffers(ram, iov, i + 1, k);
        assert(buffers(ram, iov, i, k) == first + later);
        assert(i * 16 == 16 * i);
        let base = word(ram, iov + 16 * i, 8) as int;
        let len = word(ram, iov + 16 * i + 8, 8) as int;
        assert(readable_part(ram, base, len) =~= first);
        assert(first.len() == len);
        lemma_gather_prefix(ram, iov, n, i + 1, k, (total + len) as nat);
        let after = gather(ram, iov, n, k, total + buffers(ram, iov, i, k).len());
        assert(first + (later + after.0) =~= (first + later) + after.0);
    }
}

/// `writev` to descriptor 1 or 2 sends its buffers one after the other, as they
/// are, and returns the sum of their lengths.
pub proof fn law_writev_sends_buffers(st: Syscalls, ram: Seq<u8>, call: Call)
    requires
        call.nr == 20,
        call.a1 == 1 || call.a1 == 2,
        forall|j: int| 0 <= j < call.a3 ==> #[trigger] good_buffer(ram, call.a2 as int, j),
        buffers(ram, call.a2 as int, 0, call.a3 as int).len() <= u64::MAX,
    ensures
        sent(ram, call) == buffers(ram, call.a2 as int, 0, call.a3 as int),
        outcome(st, ram, call) == Outcome::Return(sent(ram, call).len() as u64),
        port_writes(ram, call) == serial_writes(sent(ram, call)),
{
    let all = buffers(ram, call.a2 as int, 0, call.a3 as int);
    lemma_gather_prefix(ram, call.a2 as int, call.a3 as int, 0, call.a3 as int, 0);
    assert(all + Seq::<u8>::empty() =~= all);
}

/// A `writev` whose entry number `k` is the first that is not in memory, or whose
/// buffer is not, sends the buffers before it and of that one the part that lies
/// in memory, and the guest cannot go on.
pub proof fn law_writev_stops_at_bad_buffer(st: Syscalls, ram: Seq<u8>, call: Call, k: int)
    requires
        call.nr == 20,
        call.a1 == 1 || call.a1 == 2,
        0 <= k < call.a3,
        forall|j: int| 0 <= j < k ==> #[trigger] good_buffer(ram, call.a2 as int, j),
        buffers(ram, call.a2 as int, 0, k).len() <= u64::MAX,
        !good_buffer(ram, call.a2 as int, k),
    ensures
        ({
            let before = buffers(ram, call.a2 as int, 0, k);
            let at = call.a2 + 16 * k;
            let base = word(ram, at, 8) as int;
            &&& outcome(st, ram, call) == Outcome::Fault
            &&& at + 16 > ram.len() || base >= ram.len() ==> sent(ram, call) == before
            &&& at + 16 <= ram.len() && base < ram.len() ==> sent(ram, call) == before + ram.subrange(
                base,
                ram.len() as int,
            )
        }),
{
    let before = buffers(ram, call.a2 as int, 0, k);
    lemma_gather_prefix(ram, call.a2 as int, call.a3 as int, 0, k, 0);
    assert(k * 16 == 16 * k);
    assert(before + Seq::<u8>::empty() =~= before);
}

/// `brk` moves the end of the heap to any address from where it is up to, but not
/// including, 0x00e0_0000, and returns where it then is. Nothing else changes.
pub proof fn law_brk_answers(st: Syscalls, ram: Seq<u8>, fs_base: u64, call: Call)
    requires
        call.nr == 12,
    ensures
        ({
            let next = next_state(st, call);
            &&& st.brk <= call.a1 && call.a1 < 0x00e0_0000 ==> next.brk == call.a1
            &&& call.a1 < st.brk || 0x00e0_0000 <= call.a1 ==> next.brk == st.brk
            &&& outcome(st, ram, call) == Outcome::Return(next.brk)
            &&& next.mmap == st.mmap
            &&& port_writes(ram, call).len() == 0
            &&& ram_after(ram, fs_base, call) == ram
        }),
{
}

/// `mmap` gives anonymous memory alone, which flag 0x20 asks for. It takes its
/// length in whole pages, `pages` bytes, from where the last piece ended, whether
/// or not this leaves the arena, and returns where the piece starts, or that there
/// is no memory.
pub proof fn law_mmap_answers(st: Syscalls, ram: Seq<u8>, fs_base: u64, call: Call, pages: int)
    requires
        call.nr == 9,
        pages % 4096 == 0,
        call.a2 <= pages < call.a2 + 4096,
    ensures
        ({
            let next = next_state(st, call);
            let result = outcome(st, ram, call);
            let possible = call.a2 + 0xfff <= u64::MAX && st.mmap + pages <= u64::MAX;
            &&& call.a4 & 0x20 == 0 ==> next == st && result == Outcome::Return(
                0xffff_ffff_ffff_ffda,
            )
            &&& call.a4 & 0x20 != 0 && !possible ==> next == st && result == Outcome::Fault
            &&& call.a4 & 0x20 != 0 && possible ==> {
                &&& next.mmap == st.mmap + pages
                &&& next.brk == st.brk
                &&& st.mmap + pages <= 0x02f0_0000 ==> result == Outcome::Return(st.mmap)
                &&& st.mmap + pages > 0x02f0_0000 ==> result == Outcome::Return(
                    0xffff_ffff_ffff_fff4,
                )
            }
            &&& port_writes(ram, call).len() == 0
            &&& ram_after(ram, fs_base, call) == ram
        }),
{
    let flags = call.a4;
    assert(flags & 0x20 == 0 <==> (flags / 32) % 2 == 0) by (bit_vector);
    law_page_up(call.a2 as int);
}

/// `arch_prctl` sets the FS base to its second argument (0x1002), stores the
/// current one there (0x1003), and refuses everything else.
pub proof fn law_arch_prctl_answers(st: Syscalls, ram: Seq<u8>, fs_base: u64, call: Call, i: int)
    requires
        call.nr == 158,
        0 <= i < ram.len(),
    ensures
        ({
            let after = ram_after(ram, fs_base, call);
            let result = outcome(st, ram, call);
            let fits = call.a2 + 8 <= ram.len();
            &&& call.a1 == 0x1002 ==> result == Outcome::SetFsBase(call.a2)
            &&& call.a1 == 0x1003 && fits ==> result == Outcome::Return(0) && word(
                after,
                call.a2 as int,
                8,
            ) == fs_base && (!(call.a2 <= i < call.a2 + 8) ==> after[i] == ram[i])
            &&& call.a1 == 0x1003 && !fits ==> result == Outcome::Fault
            &&& call.a1 != 0x1002 && call.a1 != 0x1003 ==> result == Outcome::Return(
                0xffff_ffff_ffff_ffea,
            )
            &&& call.a1 != 0x1003 || !fits ==> after == ram
            &&& after.len() == ram.len()
            &&& next_state(st, call) == st
            &&& port_writes(ram, call).len() == 0
        }),
{
    if call.a1 == 0x1003 && call.a2 + 8 <= ram.len() {
        law_store_u64(ram, call.a2 as int, fs_base, i);
        law_read_back_u64(ram, call.a2 as int, fs_base);
    }
}

/// The calls with one fixed answer, and that they do nothing else: `ioctl` finds
/// no terminal; the process is number 1; `munmap`, signals and user ids answer 0.
/// Every call that is not known is refused, with a line that gives its number.
pub proof fn law_fixed_answers(st: Syscalls, ram: Seq<u8>, fs_base: u64, call: Call)
    requires
        call.nr != 1 && call.nr != 20 && call.nr != 12 && call.nr != 9 && call.nr != 158,
        call.nr != 60 && call.nr != 231,
    ensures
        ({
            let result = outcome(st, ram, call);
            let zero = call.nr == 11 || call.nr == 13 || call.nr == 14 || call.nr == 102 || call.nr
                == 104 || call.nr == 107 || call.nr == 108;
            let one = call.nr == 218 || call.nr == 39 || call.nr == 186;
            &&& call.nr == 16 ==> result == Outcome::Return(0xffff_ffff_ffff_ffe7)
            &&& zero ==> result == Outcome::Return(0)
            &&& one ==> result == Outcome::Return(1)
            &&& zero || one || call.nr == 16 ==> port_writes(ram, call).len() == 0
            &&& !(zero || one || call.nr == 16) ==> {
                &&& result == Outcome::Return(0xffff_ffff_ffff_ffda)
                &&& port_writes(ram, call) == serial_writes(sent(ram, call))
                &&& is_number_line(
                    sent(ram, call),
                    text("[kernel] unhandled syscall "),
                    10,
                    call.nr as nat,
                )
            }
            &&& next_state(st, call) == st
            &&& ram_after(ram, fs_base, call) == ram
        }),
{
    lemma_number_line(text("[kernel] unhandled syscall "), call.nr as nat);
}

/// `exit` and `exit_group` announce the status, a signed number, in a line, and ask
/// the host for exit with its low byte.
pub proof fn law_exit_answers(st: Syscalls, ram: Seq<u8>, fs_base: u64, call: Call)
    requires
        call.nr == 60 || call.nr == 231,
    ensures
        ({
            let head = text("[kernel] program exited with ");
            let line = sent(ram, call);
            &&& outcome(st, ram, call) == Outcome::Exit
            &&& port_writes(ram, call).drop_last() == serial_writes(line)
            &&& port_writes(ram, call).last().port == 0xf4
            &&& port_writes(ram, call).last().value == call.a1 % 256
            &&& call.a1 < 0x8000_0000_0000_0000 ==> is_number_line(line, head, 10, call.a1 as nat)
            &&& call.a1 >= 0x8000_0000_0000_0000 ==> is_number_line(
                line,
                head.push(0x2d),
                10,
                (0x1_0000_0000_0000_0000 - call.a1) as nat,
            )
            &&& next_state(st, call) == st
            &&& ram_after(ram, fs_base, call) == ram
        }),
{
    let head = text("[kernel] program exited with ");
    assert(port_writes(ram, call).drop_last() =~= serial_writes(sent(ram, call)));
    if call.a1 < 0x8000_0000_0000_0000 {
        lemma_number_line(head, call.a1 as nat);
    } else {
        let magnitude = (0x1_0000_0000_0000_0000 - call.a1) as nat;
        lemma_number_line(head.push(0x2d), magnitude);
        assert(sent(ram, call) =~= head.push(0x2d) + decimal(magnitude as int) + seq![10u8]);
    }
}

} // verus!
