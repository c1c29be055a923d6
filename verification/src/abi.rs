//! What guest and host agree on: ports, the memory map, input events and the
//! mailbox.
//!
//! ```text
//! 0x0000_1000  page tables (3 pages, written by the host)
//! 0x001f_0000  stack top (grows down)
//! 0x0020_0000  kernel image
//! 0x00f0_0000  SharedState mailbox (host writes while the guest is parked)
//! 0x0100_0000  framebuffer, 640x480 0RGB u32 (guest writes, host shows)
//! 0x0180_0000  guest scratch (paint canvas, z-buffer, syscall frame)
//! ```

use crate::le::to_le;
use crate::memory::{read_u16, read_u32, read_u64, write_bytes};
use vstd::prelude::*;

use crate::le::{lemma_le_decode_encode, lemma_le_limits};
use crate::memory::{law_word_bytes, lemma_word_same, word};

verus! {

pub const SERIAL_PORT: u16 = 0x3f8;

pub const EXIT_PORT: u16 = 0xf4;

/// The guest writes here when a frame is finished; the host parks the vCPU
/// until the frame is on screen and fresh input is in the mailbox.
pub const FRAME_PORT: u16 = 0xf5;

/// Guest memory: 64 MiB.
pub const MEM_SIZE: usize = 0x0400_0000;

pub const FB_ADDR: u64 = 0x0100_0000;

pub const FB_WIDTH: usize = 640;

pub const FB_HEIGHT: usize = 480;

/// Scratch region that each guest uses as it likes.
pub const SCRATCH_ADDR: u64 = 0x0180_0000;

pub const STATE_ADDR: u64 = 0x00f0_0000;

pub const MAX_EVENTS: usize = 256;

/// Bytes that the mailbox takes in memory.
pub const STATE_SIZE: usize = 2072;

// Input events have the evdev shape {type, code, value}, with Linux codes.
pub const EV_KEY: u16 = 0x01;

pub const EV_REL: u16 = 0x02;

pub const EV_ABS: u16 = 0x03;

pub const ABS_X: u16 = 0x00;

pub const ABS_Y: u16 = 0x01;

/// Wheel steps; the value is an `i32` stored in the `u32`.
pub const REL_WHEEL: u16 = 0x08;

pub const BTN_LEFT: u16 = 0x110;

pub const KEY_SPACE: u16 = 57;

pub const KEY_C: u16 = 46;

#[derive(Debug, Clone, Copy, PartialEq, Eq, Structural)]
pub struct InputEvent {
    pub kind: u16,
    pub code: u16,
    pub value: u32,
}

/// Per-frame mailbox. The host fills it between the guest's `FRAME_PORT`
/// doorbell and the next run of the vCPU, so there is never concurrent access.
#[derive(Debug, Clone, Copy)]
pub struct SharedState {
    pub frame: u64,
    /// Monotonic nanoseconds since the host started.
    pub time_ns: u64,
    pub event_count: u32,
    pub _pad: u32,
    pub events: [InputEvent; MAX_EVENTS],
}

/// The bytes from `addr` on are those of `event`.
pub open spec fn event_at(ram: Seq<u8>, addr: int, event: InputEvent) -> bool {
    &&& word(ram, addr, 2) == event.kind as nat
    &&& word(ram, addr + 2, 2) == event.code as nat
    &&& word(ram, addr + 4, 4) == event.value as nat
}

/// The bytes from `addr` on are those of a mailbox with the given contents.
pub open spec fn state_at(ram: Seq<u8>, addr: int, state: SharedState) -> bool {
    &&& word(ram, addr, 8) == state.frame as nat
    &&& word(ram, addr + 8, 8) == state.time_ns as nat
    &&& word(ram, addr + 16, 4) == state.event_count as nat
    &&& word(ram, addr + 20, 4) == state._pad as nat
    &&& forall|i: int|
        0 <= i < MAX_EVENTS ==> event_at(ram, addr + 24 + 8 * i, #[trigger] state.events@[i])
}

/// Two memories of one size that agree outside `lo..hi`.
pub open spec fn same_outside(a: Seq<u8>, b: Seq<u8>, lo: int, hi: int) -> bool {
    &&& a.len() == b.len()
    &&& forall|k: int| 0 <= k < a.len() && !(lo <= k < hi) ==> #[trigger] a[k] == b[k]
}

/// The events that a mailbox holds: the host's count, cut off at the room that
/// there is.
pub open spec fn pending_events(state: SharedState) -> Seq<InputEvent> {
    if state.event_count <= MAX_EVENTS {
        state.events@.take(state.event_count as int)
    } else {
        state.events@
    }
}

impl SharedState {
    /// How many of `events` count.
    pub fn pending(&self) -> (n: usize)
        ensures
            n == pending_events(*self).len(),
            n <= MAX_EVENTS,
            pending_events(*self) == self.events@.take(n as int),
    {
        let n: usize = if self.event_count <= 256 {
            self.event_count as usize
        } else {
            MAX_EVENTS
        };
        proof {
            assert(self.events@.take(MAX_EVENTS as int) =~= self.events@);
        }
        n
    }
}

fn write_word(ram: &mut [u8], addr: u64, value: u64, n: usize)
    requires
        addr + n <= old(ram)@.len(),
        value < crate::le::le_limit(n as nat),
    ensures
        word(final(ram)@, addr as int, n as int) == value as nat,
        same_outside(old(ram)@, final(ram)@, addr as int, addr + n),
{
    let bytes: Vec<u8> = to_le(value, n);
    write_bytes(ram, addr, bytes.as_slice());
    proof {
        lemma_le_decode_encode(value as nat, n as nat);
        assert(ram@.subrange(addr as int, addr + n) =~= bytes@);
    }
}

fn read_event(ram: &[u8], addr: u64) -> (event: InputEvent)
    requires
        addr + 8 <= ram@.len(),
    ensures
        event_at(ram@, addr as int, event),
{
    assert(ram@.len() == ram.len());
    InputEvent {
        kind: read_u16(ram, addr),
        code: read_u16(ram, addr + 2),
        value: read_u32(ram, addr + 4),
    }
}

fn write_event(ram: &mut [u8], addr: u64, event: InputEvent)
    requires
        addr + 8 <= old(ram)@.len(),
    ensures
        event_at(final(ram)@, addr as int, event),
        same_outside(old(ram)@, final(ram)@, addr as int, addr + 8),
{
    assert(ram@.len() == ram.len());
    proof {
        lemma_le_limits();
    }
    write_word(ram, addr, event.kind as u64, 2);
    let ghost one = ram@;
    write_word(ram, addr + 2, event.code as u64, 2);
    let ghost two = ram@;
    write_word(ram, addr + 4, event.value as u64, 4);
    proof {
        lemma_word_same(one, ram@, addr as int, 2);
        lemma_word_same(two, ram@, addr + 2, 2);
    }
}

/// The mailbox as the guest finds it.
pub fn read_state(ram: &[u8]) -> (state: SharedState)
    requires
        STATE_ADDR + STATE_SIZE <= ram@.len(),
    ensures
        state_at(ram@, STATE_ADDR as int, state),
{
    decode_state(ram, STATE_ADDR)
}

/// The mailbox whose bytes start at `at`.
pub fn decode_state(ram: &[u8], at: u64) -> (state: SharedState)
    requires
        at + STATE_SIZE <= ram@.len(),
    ensures
        state_at(ram@, at as int, state),
{
    assert(ram@.len() == ram.len());
    let none: InputEvent = InputEvent { kind: 0, code: 0, value: 0 };
    let mut events: [InputEvent; MAX_EVENTS] = [none; MAX_EVENTS];
    let mut i: usize = 0;
    while i < MAX_EVENTS
        invariant
            i <= MAX_EVENTS,
            at + STATE_SIZE <= ram@.len() <= usize::MAX,
            forall|j: int|
                0 <= j < i ==> event_at(ram@, at + 24 + 8 * j, #[trigger] events@[j]),
        decreases MAX_EVENTS - i,
    {
        events[i] = read_event(ram, at + 24 + 8 * i as u64);
        i = i + 1;
    }
    SharedState {
        frame: read_u64(ram, at),
        time_ns: read_u64(ram, at + 8),
        event_count: read_u32(ram, at + 16),
        _pad: read_u32(ram, at + 20),
        events,
    }
}

/// Fills the mailbox, and nothing but the mailbox.
pub fn write_state(ram: &mut [u8], state: &SharedState)
    requires
        STATE_ADDR + STATE_SIZE <= old(ram)@.len(),
    ensures
        state_at(final(ram)@, STATE_ADDR as int, *state),
        same_outside(old(ram)@, final(ram)@, STATE_ADDR as int, STATE_ADDR + STATE_SIZE),
{
    proof {
        lemma_le_limits();
    }
    let ghost at = STATE_ADDR as int;
    write_word(ram, STATE_ADDR, state.frame, 8);
    let ghost one = ram@;
    write_word(ram, STATE_ADDR + 8, state.time_ns, 8);
    let ghost two = ram@;
    write_word(ram, STATE_ADDR + 16, state.event_count as u64, 4);
    let ghost three = ram@;
    write_word(ram, STATE_ADDR + 20, state._pad as u64, 4);
    let ghost head = ram@;
    proof {
        lemma_word_same(one, head, at, 8);
        lemma_word_same(two, head, at + 8, 8);
        lemma_word_same(three, head, at + 16, 4);
    }
    let mut i: usize = 0;
    while i < MAX_EVENTS
        invariant
            i <= MAX_EVENTS,
            at == STATE_ADDR,
            STATE_ADDR + STATE_SIZE <= head.len(),
            same_outside(head, ram@, at + 24, at + STATE_SIZE),
            forall|j: int| 0 <= j < i ==> event_at(ram@, at + 24 + 8 * j, #[trigger] state.events@[j]),
        decreases MAX_EVENTS - i,
    {
        let ghost before = ram@;
        write_event(ram, STATE_ADDR + 24 + 8 * i as u64, state.events[i]);
        proof {
            assert forall|j: int| 0 <= j < i implies event_at(
                ram@,
                at + 24 + 8 * j,
                #[trigger] state.events@[j],
            ) by {
                lemma_word_same(before, ram@, at + 24 + 8 * j, 2);
                lemma_word_same(before, ram@, at + 26 + 8 * j, 2);
                lemma_word_same(before, ram@, at + 28 + 8 * j, 4);
            }
        }
        i = i + 1;
    }
    proof {
        lemma_word_same(head, ram@, at, 8);
        lemma_word_same(head, ram@, at + 8, 8);
        lemma_word_same(head, ram@, at + 16, 4);
        lemma_word_same(head, ram@, at + 20, 4);
    }
}

/// A place in memory holds one mailbox: what the guest reads is what the host
/// wrote, as long as nothing has touched the mailbox in between.
pub proof fn law_mailbox_round_trip(
    written: Seq<u8>,
    read: Seq<u8>,
    addr: int,
    sent: SharedState,
    received: SharedState,
)
    requires
        0 <= addr,
        addr + STATE_SIZE <= written.len(),
        written.len() == read.len(),
        forall|k: int| addr <= k < addr + STATE_SIZE ==> #[trigger] written[k] == read[k],
        state_at(written, addr, sent),
        state_at(read, addr, received),
    ensures
        received == sent,
        pending_events(received) == pending_events(sent),
{
    lemma_word_same(written, read, addr, 8);
    lemma_word_same(written, read, addr + 8, 8);
    lemma_word_same(written, read, addr + 16, 4);
    lemma_word_same(written, read, addr + 20, 4);
    assert forall|i: int| 0 <= i < MAX_EVENTS implies sent.events@[i] == received.events@[i] by {
        lemma_word_same(written, read, addr + 24 + 8 * i, 2);
        lemma_word_same(written, read, addr + 26 + 8 * i, 2);
        lemma_word_same(written, read, addr + 28 + 8 * i, 4);
        assert(event_at(written, addr + 24 + 8 * i, sent.events@[i]));
        assert(event_at(read, addr + 24 + 8 * i, received.events@[i]));
    }
    assert(sent.events =~= received.events);
}

/// The regions of guest memory, in order: page tables, stack, kernel image,
/// mailbox, framebuffer, scratch.
pub open spec fn memory_map() -> Seq<(int, int)> {
    seq![
        (0x1000, 0x4000),
        (0x4000, 0x1f_0000),
        (0x20_0000, STATE_ADDR as int),
        (STATE_ADDR as int, STATE_ADDR + STATE_SIZE),
        (FB_ADDR as int, FB_ADDR + 4 * FB_WIDTH * FB_HEIGHT),
        (SCRATCH_ADDR as int, SCRATCH_ADDR + 4 * FB_WIDTH * FB_HEIGHT),
    ]
}

/// No two regions share an address, and each lies in guest memory.
pub proof fn law_regions_apart(i: int, j: int, addr: int)
    requires
        0 <= i < memory_map().len(),
        0 <= j < memory_map().len(),
        memory_map()[i].0 <= addr < memory_map()[i].1,
        memory_map()[j].0 <= addr < memory_map()[j].1,
    ensures
        i == j,
        0 <= addr < MEM_SIZE,
{
}

/// The numbers that guest and host agree on: the ports, the memory map, and the
/// codes of input events.
pub proof fn law_abi_numbers()
    ensures
        SERIAL_PORT == 0x3f8 && EXIT_PORT == 0xf4 && FRAME_PORT == 0xf5,
        MEM_SIZE == 64 * 1024 * 1024,
        FB_ADDR == 0x0100_0000 && FB_WIDTH == 640 && FB_HEIGHT == 480,
        SCRATCH_ADDR == 0x0180_0000 && STATE_ADDR == 0x00f0_0000,
        MAX_EVENTS == 256 && STATE_SIZE == 24 + 8 * MAX_EVENTS,
        EV_KEY == 1 && EV_REL == 2 && EV_ABS == 3,
        ABS_X == 0 && ABS_Y == 1 && REL_WHEEL == 8,
        BTN_LEFT == 0x110 && KEY_SPACE == 57 && KEY_C == 46,
{
}

/// Which byte of the mailbox says what, of a mailbox in memory: frame and time in
/// eight bytes each, event count and padding in four, then the events in eight
/// bytes each, type and code in two and the value in four, all least significant
/// byte first.
pub proof fn law_mailbox_layout(ram: Seq<u8>, at: int, state: SharedState, i: int)
    requires
        0 <= at,
        at + STATE_SIZE <= ram.len(),
        state_at(ram, at, state),
        0 <= i < 256,
    ensures
        state.frame == ram[at] + 0x100 * ram[at + 1] + 0x1_0000 * ram[at + 2] + 0x100_0000 * ram[at
            + 3] + 0x1_0000_0000 * ram[at + 4] + 0x100_0000_0000 * ram[at + 5] + 0x1_0000_0000_0000
            * ram[at + 6] + 0x100_0000_0000_0000 * ram[at + 7],
        state.time_ns == ram[at + 8] + 0x100 * ram[at + 9] + 0x1_0000 * ram[at + 10] + 0x100_0000
            * ram[at + 11] + 0x1_0000_0000 * ram[at + 12] + 0x100_0000_0000 * ram[at + 13]
            + 0x1_0000_0000_0000 * ram[at + 14] + 0x100_0000_0000_0000 * ram[at + 15],
        state.event_count == ram[at + 16] + 0x100 * ram[at + 17] + 0x1_0000 * ram[at + 18]
            + 0x100_0000 * ram[at + 19],
        state._pad == ram[at + 20] + 0x100 * ram[at + 21] + 0x1_0000 * ram[at + 22] + 0x100_0000
            * ram[at + 23],
        state.events@[i].kind == ram[at + 24 + 8 * i] + 0x100 * ram[at + 25 + 8 * i],
        state.events@[i].code == ram[at + 26 + 8 * i] + 0x100 * ram[at + 27 + 8 * i],
        state.events@[i].value == ram[at + 28 + 8 * i] + 0x100 * ram[at + 29 + 8 * i] + 0x1_0000
            * ram[at + 30 + 8 * i] + 0x100_0000 * ram[at + 31 + 8 * i],
{
    law_word_bytes(ram, at);
    law_word_bytes(ram, at + 8);
    law_word_bytes(ram, at + 16);
    law_word_bytes(ram, at + 20);
    assert(event_at(ram, at + 24 + 8 * i, state.events@[i]));
    law_word_bytes(ram, at + 24 + 8 * i);
    law_word_bytes(ram, at + 26 + 8 * i);
    law_word_bytes(ram, at + 28 + 8 * i);
}

/// The events that count are the first ones of the mailbox, in order: as many as
/// the count says, or all where it says more than there is room for.
pub proof fn law_pending(state: SharedState, i: int)
    ensures
        state.event_count <= 256 ==> pending_events(state).len() == state.event_count,
        state.event_count > 256 ==> pending_events(state).len() == 256,
        0 <= i < pending_events(state).len() ==> pending_events(state)[i] == state.events@[i],
{
}

/// Filling the mailbox leaves the size of memory and every byte outside it.
pub proof fn law_rest_untouched(a: Seq<u8>, b: Seq<u8>, lo: int, hi: int, k: int)
    requires
        same_outside(a, b, lo, hi),
    ensures
        a.len() == b.len(),
        0 <= k < a.len() && (k < lo || hi <= k) ==> a[k] == b[k],
{
}

} // verus!
