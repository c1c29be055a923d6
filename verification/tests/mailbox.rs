use rust_kvm_os::abi::{
    decode_state, read_state, write_state, InputEvent, SharedState, FB_ADDR, FB_HEIGHT, FB_WIDTH, MAX_EVENTS,
    MEM_SIZE, SCRATCH_ADDR, STATE_ADDR, STATE_SIZE,
};

fn sample() -> SharedState {
    let mut events = [InputEvent { kind: 0, code: 0, value: 0 }; MAX_EVENTS];
    events[0] = InputEvent { kind: 3, code: 1, value: 0xffff_fffe };
    events[255] = InputEvent { kind: 0x1234, code: 0x110, value: 7 };
    SharedState { frame: 5, time_ns: 0x1_0000_0000, event_count: 300, _pad: 9, events }
}

#[test]
fn mailbox_fields_lie_one_after_the_other() {
    let mut ram = vec![0u8; MEM_SIZE];
    write_state(&mut ram, &sample());
    let at = STATE_ADDR as usize;
    assert_eq!(STATE_SIZE, 24 + 8 * MAX_EVENTS);
    assert_eq!(ram[at..at + 8], [5, 0, 0, 0, 0, 0, 0, 0]);
    assert_eq!(ram[at + 8..at + 16], [0, 0, 0, 0, 1, 0, 0, 0]);
    assert_eq!(ram[at + 16..at + 24], [44, 1, 0, 0, 9, 0, 0, 0]);
    assert_eq!(ram[at + 24..at + 32], [3, 0, 1, 0, 0xfe, 0xff, 0xff, 0xff]);
    assert_eq!(ram[at + 2064..at + 2072], [0x34, 0x12, 0x10, 0x01, 7, 0, 0, 0]);
    assert!(ram[..at].iter().all(|b| *b == 0));
    assert!(ram[at + STATE_SIZE..].iter().all(|b| *b == 0));
}

#[test]
fn guest_reads_what_the_host_wrote() {
    let mut ram = vec![0xeeu8; MEM_SIZE];
    let sent = sample();
    write_state(&mut ram, &sent);
    let got = read_state(&ram);
    assert_eq!((got.frame, got.time_ns, got.event_count, got._pad), (5, 0x1_0000_0000, 300, 9));
    assert!(got.events.iter().zip(sent.events.iter()).all(|(a, b)| a == b));
    let copy = decode_state(&ram[STATE_ADDR as usize..STATE_ADDR as usize + STATE_SIZE], 0);
    assert_eq!(copy.events[255], sent.events[255]);
}

#[test]
fn event_count_is_cut_off_at_the_room_there_is() {
    let mut state = sample();
    assert_eq!(state.pending(), 256);
    state.event_count = 256;
    assert_eq!(state.pending(), 256);
    state.event_count = 3;
    assert_eq!(state.pending(), 3);
    state.event_count = 0;
    assert_eq!(state.pending(), 0);
    state.event_count = u32::MAX;
    assert_eq!(state.pending(), 256);
}

#[test]
fn regions_follow_one_another() {
    let picture = 4 * FB_WIDTH * FB_HEIGHT;
    assert!(STATE_ADDR as usize + STATE_SIZE <= FB_ADDR as usize);
    assert!(FB_ADDR as usize + picture <= SCRATCH_ADDR as usize);
    assert!(SCRATCH_ADDR as usize + picture <= MEM_SIZE);
}
