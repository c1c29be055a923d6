//! What the host does each time the vCPU leaves the guest.

use crate::abi::{EXIT_PORT, FRAME_PORT, SERIAL_PORT};
use crate::text::{push_bytes, push_hex, push_str, push_unsigned};
use vstd::prelude::*;

use crate::abi::{
    law_mailbox_round_trip, pending_events, same_outside, state_at, SharedState, FB_ADDR, FB_HEIGHT,
    FB_WIDTH, STATE_ADDR, STATE_SIZE,
};
use crate::runtime::{panic_writes, serial_writes, PortWrite};
use crate::text::{decimal, hex, is_number_line, lemma_number_line, text};

verus! {

/// Why the vCPU stopped running the guest.
pub enum VmExit {
    /// The guest wrote `data` to a port.
    IoOut { port: u16, data: Vec<u8> },
    /// The guest executed `hlt`.
    Hlt,
    /// The guest crashed. With no interrupt table in the guest, every exception
    /// ends here; `rip` is that of the vCPU after its reset.
    Shutdown { rip: u64 },
    /// Anything else.
    Other,
}

/// The exits, with data as sequences.
pub enum ExitView {
    IoOut { port: u16, data: Seq<u8> },
    Hlt,
    Shutdown { rip: u64 },
    Other,
}

impl View for VmExit {
    type V = ExitView;

    open spec fn view(&self) -> ExitView {
        match self {
            VmExit::IoOut { port, data } => ExitView::IoOut { port: *port, data: data@ },
            VmExit::Hlt => ExitView::Hlt,
            VmExit::Shutdown { rip } => ExitView::Shutdown { rip: *rip },
            VmExit::Other => ExitView::Other,
        }
    }
}

/// What the host does next.
pub enum Action {
    /// Write the guest's output to standard output and run the guest again.
    Emit(Vec<u8>),
    /// Show the framebuffer, fill the mailbox and run the guest again.
    Present,
    /// Print a message, to standard error where `error` is set, and leave with
    /// `code`.
    Stop { message: Vec<u8>, error: bool, code: u8 },
    /// Report the exit as unexpected and leave with code 1.
    Unexpected,
}

/// The actions, with text as sequences.
pub enum ActionView {
    Emit(Seq<u8>),
    Present,
    Stop { message: Seq<u8>, error: bool, code: u8 },
    Unexpected,
}

impl View for Action {
    type V = ActionView;

    open spec fn view(&self) -> ActionView {
        match self {
            Action::Emit(data) => ActionView::Emit(data@),
            Action::Present => ActionView::Present,
            Action::Stop { message, error, code } => ActionView::Stop {
                message: message@,
                error: *error,
                code: *code,
            },
            Action::Unexpected => ActionView::Unexpected,
        }
    }
}

/// The line that announces the exit that a guest asked for.
pub open spec fn exit_message(code: u8) -> Seq<u8> {
    text("[vmm] guest requested exit with code ") + decimal(code as int) + seq![10u8]
}

/// The line that announces a crash.
pub open spec fn crash_message(rip: u64) -> Seq<u8> {
    text("[vmm] guest crashed (triple fault); post-reset rip=") + hex(rip as nat) + seq![10u8]
}

/// The action that answers an exit.
pub open spec fn serviced(exit: ExitView) -> ActionView {
    match exit {
        ExitView::IoOut { port, data } => if port == SERIAL_PORT {
            ActionView::Emit(data)
        } else if port == EXIT_PORT {
            ActionView::Stop { message: exit_message(data[0]), error: false, code: data[0] }
        } else if port == FRAME_PORT {
            ActionView::Present
        } else {
            ActionView::Unexpected
        },
        ExitView::Hlt => ActionView::Stop {
            message: text("[vmm] guest halted\n"),
            error: false,
            code: 0,
        },
        ExitView::Shutdown { rip } => ActionView::Stop {
            message: crash_message(rip),
            error: true,
            code: 1,
        },
        ExitView::Other => ActionView::Unexpected,
    }
}

/// Decides what an exit of the vCPU calls for.
pub fn service(exit: &VmExit) -> (action: Action)
    requires
        exit matches VmExit::IoOut { port, data } ==> port == EXIT_PORT ==> data@.len() > 0,
    ensures
        action@ == serviced(exit@),
        match *exit {
            VmExit::IoOut { port, data } => {
                &&& port == 0x3f8 ==> (action matches Action::Emit(shown) && shown@ == data@)
                &&& port == 0xf4 ==> (action matches Action::Stop { message, error, code } && code
                    == data@[0] && !error && is_number_line(
                    message@,
                    text("[vmm] guest requested exit with code "),
                    10,
                    data@[0] as nat,
                ))
                &&& port == 0xf5 ==> action is Present
                &&& port != 0x3f8 && port != 0xf4 && port != 0xf5 ==> action is Unexpected
            },
            VmExit::Hlt => action matches Action::Stop { message, error, code } && code == 0
                && !error && message@ == text("[vmm] guest halted\n"),
            VmExit::Shutdown { rip } => action matches Action::Stop { message, error, code } && code
                == 1 && error && is_number_line(
                message@,
                text("[vmm] guest crashed (triple fault); post-reset rip="),
                16,
                rip as nat,
            ),
            VmExit::Other => action is Unexpected,
        },
{
    match exit {
        VmExit::IoOut { port, data } => {
            if *port == SERIAL_PORT {
                let mut out: Vec<u8> = Vec::new();
                push_bytes(&mut out, data.as_slice());
                proof {
                    assert(out@ =~= data@);
                }
                Action::Emit(out)
            } else if *port == EXIT_PORT {
                let code: u8 = data[0];
                let mut message: Vec<u8> = Vec::new();
                push_str(&mut message, "[vmm] guest requested exit with code ");
                push_unsigned(&mut message, code as u64);
                message.push(10);
                proof {
                    assert(message@ =~= exit_message(code));
                    lemma_number_line(text("[vmm] guest requested exit with code "), code as nat);
                }
                Action::Stop { message, error: false, code }
            } else if *port == FRAME_PORT {
                Action::Present
            } else {
                Action::Unexpected
            }
        },
        VmExit::Hlt => {
            let mut message: Vec<u8> = Vec::new();
            push_str(&mut message, "[vmm] guest halted\n");
            proof {
                assert(message@ =~= text("[vmm] guest halted\n"));
            }
            Action::Stop { message, error: false, code: 0 }
        },
        VmExit::Shutdown { rip } => {
            let mut message: Vec<u8> = Vec::new();
            push_str(&mut message, "[vmm] guest crashed (triple fault); post-reset rip=");
            push_hex(&mut message, *rip);
            message.push(10);
            proof {
                assert(message@ =~= crash_message(*rip));
                lemma_number_line(
                    text("[vmm] guest crashed (triple fault); post-reset rip="),
                    *rip as nat,
                );
            }
            Action::Stop { message, error: true, code: 1 }
        },
        VmExit::Other => Action::Unexpected,
    }
}

/// What a host has done for a guest.
pub struct Session {
    /// What went to standard output.
    pub stdout: Seq<u8>,
    /// How many frames were shown.
    pub frames: nat,
    /// The exit code, once the machine has ended.
    pub ended: Option<u8>,
}

/// What one port write makes of a session that has not ended.
pub open spec fn host_step(session: Session, write: PortWrite) -> Session {
    match serviced(ExitView::IoOut { port: write.port, data: seq![write.value] }) {
        ActionView::Emit(data) => Session { stdout: session.stdout + data, ..session },
        ActionView::Present => Session { frames: session.frames + 1, ..session },
        ActionView::Stop { message, error, code } => Session {
            stdout: if error {
                session.stdout
            } else {
                session.stdout + message
            },
            ended: Some(code),
            ..session
        },
        ActionView::Unexpected => Session { ended: Some(1), ..session },
    }
}

/// The session of a guest with the given port writes. What a guest would write
/// after its end is never run.
pub open spec fn hosted(log: Seq<PortWrite>) -> Session
    decreases log.len(),
{
    if log.len() == 0 {
        Session { stdout: Seq::empty(), frames: 0, ended: None }
    } else {
        let before = hosted(log.drop_last());
        if before.ended is Some {
            before
        } else {
            host_step(before, log.last())
        }
    }
}

/// Whatever a running guest sends over the serial line appears on the host's
/// standard output, byte for byte, and the guest keeps running.
pub proof fn law_serial_reaches_stdout(log: Seq<PortWrite>, bytes: Seq<u8>)
    requires
        hosted(log).ended is None,
    ensures
        hosted(log + serial_writes(bytes)) == (Session {
            stdout: hosted(log).stdout + bytes,
            ..hosted(log)
        }),
    decreases bytes.len(),
{
    if bytes.len() == 0 {
        assert(log + serial_writes(bytes) =~= log);
        assert(hosted(log).stdout + bytes =~= hosted(log).stdout);
    } else {
        let init = bytes.drop_last();
        law_serial_reaches_stdout(log, init);
        let all = log + serial_writes(bytes);
        assert(all.drop_last() =~= log + serial_writes(init));
        assert(all.last() == PortWrite { port: SERIAL_PORT, value: bytes.last() });
        assert((hosted(log).stdout + init) + seq![bytes.last()] =~= hosted(log).stdout + bytes);
    }
}

/// The exit request of a running guest ends the machine with the guest's code
/// and the line that says so, and nothing after it has any effect.
pub proof fn law_exit_ends_session(log: Seq<PortWrite>, code: u8, rest: Seq<PortWrite>)
    requires
        hosted(log).ended is None,
    ensures
        hosted(log.push(PortWrite { port: EXIT_PORT, value: code }) + rest) == (Session {
            stdout: hosted(log).stdout + exit_message(code),
            frames: hosted(log).frames,
            ended: Some(code),
        }),
    decreases rest.len(),
{
    let asked = log.push(PortWrite { port: EXIT_PORT, value: code });
    if rest.len() == 0 {
        assert(asked + rest =~= asked);
        assert(asked.drop_last() =~= log);
    } else {
        law_exit_ends_session(log, code, rest.drop_last());
        assert((asked + rest).drop_last() =~= asked + rest.drop_last());
    }
}

/// The end of a frame is shown and never ends the machine: the guest runs on.
pub proof fn law_frame_resumes(log: Seq<PortWrite>, value: u8)
    requires
        hosted(log).ended is None,
    ensures
        hosted(log.push(PortWrite { port: FRAME_PORT, value })) == (Session {
            frames: hosted(log).frames + 1,
            ..hosted(log)
        }),
{
    assert(log.push(PortWrite { port: FRAME_PORT, value }).drop_last() =~= log);
}

/// The end of a frame hands the picture over and brings back fresh input. The
/// host answers the guest's doorbell by showing the frame, and the guest runs on.
/// Of the memory that the guest had then, `ram`, the refill changes nothing but
/// the mailbox, so the picture that was drawn is the one that the guest goes on
/// from; and what the guest reads next, in a memory whose mailbox nothing has
/// touched since the refill, is what the host wrote.
pub proof fn law_frame_exchange(
    log: Seq<PortWrite>,
    ram: Seq<u8>,
    refilled: Seq<u8>,
    sent: SharedState,
    later: Seq<u8>,
    received: SharedState,
)
    requires
        hosted(log).ended is None,
        STATE_ADDR + STATE_SIZE <= ram.len(),
        state_at(refilled, STATE_ADDR as int, sent),
        same_outside(ram, refilled, STATE_ADDR as int, STATE_ADDR + STATE_SIZE),
        later.len() == refilled.len(),
        forall|k: int|
            STATE_ADDR <= k < STATE_ADDR + STATE_SIZE ==> #[trigger] refilled[k] == later[k],
        state_at(later, STATE_ADDR as int, received),
    ensures
        serviced(ExitView::IoOut { port: FRAME_PORT, data: seq![0u8] }) == ActionView::Present,
        hosted(log.push(PortWrite { port: FRAME_PORT, value: 0 })) == (Session {
            frames: hosted(log).frames + 1,
            ..hosted(log)
        }),
        forall|a: int|
            FB_ADDR <= a < FB_ADDR + 4 * FB_WIDTH * FB_HEIGHT && a < ram.len()
                ==> #[trigger] refilled[a] == ram[a],
        received == sent,
        pending_events(received) == pending_events(sent),
{
    law_frame_resumes(log, 0);
    law_mailbox_round_trip(refilled, later, STATE_ADDR as int, sent, received);
}

/// A guest that panics leaves its message on standard output and ends the
/// machine with code 1.
pub proof fn law_panic_is_reported(log: Seq<PortWrite>, info: &str)
    requires
        hosted(log).ended is None,
    ensures
        ({
            let line = text("panic: ") + text(info) + seq![10u8];
            let writes = log + panic_writes(info);
            &&& hosted(writes).ended == Some(1u8)
            &&& hosted(writes).stdout == hosted(log).stdout + line + exit_message(1)
        }),
{
    let line = text("panic: ") + text(info) + seq![10u8];
    law_serial_reaches_stdout(log, line);
    let sent = log + serial_writes(line);
    law_exit_ends_session(sent, 1, Seq::empty());
    assert(sent.push(PortWrite { port: EXIT_PORT, value: 1 }) + Seq::<PortWrite>::empty() =~= log
        + panic_writes(info));
}

/// Which exits lead to which actions. What the guest writes to the serial port,
/// and nothing else, is emitted, unchanged. A write to the exit port ends the
/// machine with the byte that was written, and the line on standard output reads
/// as that number. A write to the frame port, and nothing else, presents a frame.
pub proof fn law_port_writes_answered(port: u16, data: Seq<u8>)
    requires
        port == 0xf4 ==> data.len() > 0,
    ensures
        ({
            let action = serviced(ExitView::IoOut { port, data });
            &&& action is Emit <==> port == 0x3f8
            &&& action matches ActionView::Emit(shown) ==> shown == data
            &&& action is Stop <==> port == 0xf4
            &&& action matches ActionView::Stop { message, error, code } ==> {
                &&& code == data[0]
                &&& !error
                &&& is_number_line(
                    message,
                    text("[vmm] guest requested exit with code "),
                    10,
                    data[0] as nat,
                )
            }
            &&& action is Present <==> port == 0xf5
            &&& action is Unexpected <==> port != 0x3f8 && port != 0xf4 && port != 0xf5
        }),
{
    lemma_number_line(text("[vmm] guest requested exit with code "), data[0] as nat);
}

/// A guest that halts ends the machine well; one that crashes ends it with code 1
/// and a line on standard error that gives the instruction pointer; any other
/// exit is unexpected.
pub proof fn law_other_exits_answered(rip: u64)
    ensures
        serviced(ExitView::Hlt) == (ActionView::Stop {
            message: text("[vmm] guest halted\n"),
            error: false,
            code: 0,
        }),
        serviced(ExitView::Shutdown { rip }) matches ActionView::Stop { message, error, code } && {
            &&& error
            &&& code == 1
            &&& is_number_line(
                message,
                text("[vmm] guest crashed (triple fault); post-reset rip="),
                16,
                rip as nat,
            )
        },
        serviced(ExitView::Other) is Unexpected,
{
    lemma_number_line(text("[vmm] guest crashed (triple fault); post-reset rip="), rip as nat);
}

} // verus!
