use rust_kvm_os::abi::{
    read_state, write_state, InputEvent, SharedState, EXIT_PORT, FB_ADDR, FRAME_PORT, MAX_EVENTS, MEM_SIZE,
    SERIAL_PORT,
};
use rust_kvm_os::runtime::{exit, frame_done, outb, PortWrite, Ports, Serial};
use rust_kvm_os::text::{push_decimal, push_hex, push_unsigned};
use rust_kvm_os::vmm::{service, Action, VmExit};

struct Seen {
    stdout: Vec<u8>,
    stderr: Vec<u8>,
    frames: u32,
    ended: Option<u8>,
}

/// Hosts a guest with the given port writes.
fn host(ports: &Ports) -> Seen {
    let mut seen = Seen { stdout: vec![], stderr: vec![], frames: 0, ended: None };
    for write in &ports.log {
        match service(&VmExit::IoOut { port: write.port, data: vec![write.value] }) {
            Action::Emit(data) => seen.stdout.extend_from_slice(&data),
            Action::Present => seen.frames += 1,
            Action::Stop { message, error, code } => {
                if error {
                    seen.stderr.extend_from_slice(&message);
                } else {
                    seen.stdout.extend_from_slice(&message);
                }
                seen.ended = Some(code);
                break;
            }
            Action::Unexpected => {
                seen.ended = Some(1);
                break;
            }
        }
    }
    seen
}

#[test]
fn hello_session_prints_what_the_readme_shows() {
    let mut ports = Ports::new();
    Serial.write_str(&mut ports, "hello from ring 0\n");
    Serial.write_str(&mut ports, "sqrt(3*3 + 4*4) = 5\n");
    exit(&mut ports, 0);
    let seen = host(&ports);
    assert_eq!(
        String::from_utf8(seen.stdout).unwrap(),
        "hello from ring 0\nsqrt(3*3 + 4*4) = 5\n[vmm] guest requested exit with code 0\n"
    );
    assert_eq!(seen.ended, Some(0));
}

#[test]
fn serial_text_goes_out_byte_by_byte() {
    let mut ports = Ports::new();
    Serial.write_str(&mut ports, "a\u{e9}");
    assert_eq!(
        ports.log,
        vec![
            PortWrite { port: SERIAL_PORT, value: b'a' },
            PortWrite { port: SERIAL_PORT, value: 0xc3 },
            PortWrite { port: SERIAL_PORT, value: 0xa9 },
        ]
    );
    Serial.write_bytes(&mut ports, &[0]);
    outb(&mut ports, 1, 2);
    assert_eq!(ports.log[3], PortWrite { port: SERIAL_PORT, value: 0 });
    assert_eq!(ports.log[4], PortWrite { port: 1, value: 2 });
}

#[test]
fn frames_are_shown_and_the_guest_runs_on() {
    let mut ports = Ports::new();
    frame_done(&mut ports);
    frame_done(&mut ports);
    Serial.write_str(&mut ports, "x");
    assert_eq!(ports.log[0], PortWrite { port: FRAME_PORT, value: 0 });
    let seen = host(&ports);
    assert_eq!((seen.frames, seen.ended), (2, None));
    assert_eq!(seen.stdout, b"x");
}

#[test]
fn nothing_counts_after_an_exit() {
    let mut ports = Ports::new();
    exit(&mut ports, 255);
    Serial.write_str(&mut ports, "late");
    frame_done(&mut ports);
    assert_eq!(ports.log[0], PortWrite { port: EXIT_PORT, value: 255 });
    let seen = host(&ports);
    assert_eq!(seen.stdout, b"[vmm] guest requested exit with code 255\n");
    assert_eq!((seen.frames, seen.ended), (0, Some(255)));
}

#[test]
fn panic_is_reported_with_code_one() {
    let mut ports = Ports::new();
    rust_kvm_os::runtime::panic(&mut ports, "oops");
    let seen = host(&ports);
    assert_eq!(seen.stdout, b"panic: oops\n[vmm] guest requested exit with code 1\n");
    assert_eq!(seen.ended, Some(1));
}

#[test]
fn crash_and_halt_end_the_machine() {
    match service(&VmExit::Shutdown { rip: 0xfff0 }) {
        Action::Stop { message, error, code } => {
            assert_eq!(message, b"[vmm] guest crashed (triple fault); post-reset rip=0xfff0\n");
            assert!(error);
            assert_eq!(code, 1);
        }
        _ => panic!("a crash stops the machine"),
    }
    match service(&VmExit::Hlt) {
        Action::Stop { message, error, code } => {
            assert_eq!(message, b"[vmm] guest halted\n");
            assert!(!error);
            assert_eq!(code, 0);
        }
        _ => panic!("a halt stops the machine"),
    }
}

#[test]
fn unknown_ports_and_exits_are_unexpected() {
    assert!(matches!(service(&VmExit::IoOut { port: 0x80, data: vec![] }), Action::Unexpected));
    assert!(matches!(service(&VmExit::Other), Action::Unexpected));
    match service(&VmExit::IoOut { port: SERIAL_PORT, data: vec![1, 2] }) {
        Action::Emit(data) => assert_eq!(data, vec![1, 2]),
        _ => panic!("serial data is printed"),
    }
}

#[test]
fn numbers_are_written_without_leading_zeros() {
    let mut out = vec![b'>'];
    push_decimal(&mut out, i64::MIN);
    push_decimal(&mut out, 0);
    push_decimal(&mut out, -7);
    push_unsigned(&mut out, u64::MAX);
    assert_eq!(out, b">-92233720368547758080-718446744073709551615");
    let mut out = vec![];
    push_hex(&mut out, 0);
    push_hex(&mut out, 0xdead_beef_0123_4567);
    assert_eq!(out, b"0x00xdeadbeef01234567");
}

#[test]
fn guest_reads_fresh_input_after_a_frame() {
    let mut ram = vec![0u8; MEM_SIZE];
    ram[FB_ADDR as usize] = 0xab;
    let mut ports = Ports::new();
    frame_done(&mut ports);
    assert!(matches!(service(&VmExit::IoOut { port: FRAME_PORT, data: vec![0] }), Action::Present));
    let mut events = [InputEvent { kind: 0, code: 0, value: 0 }; MAX_EVENTS];
    events[0] = InputEvent { kind: 3, code: 0, value: 77 };
    write_state(&mut ram, &SharedState { frame: 1, time_ns: 16, event_count: 1, _pad: 0, events });
    assert_eq!(host(&ports).ended, None);
    let state = read_state(&ram);
    assert_eq!((state.frame, state.time_ns, state.pending(), state.events[0].value), (1, 16, 1, 77));
    assert_eq!(ram[FB_ADDR as usize], 0xab);
}
