//! What every guest does through its ports: serial text, frames and exit.

use crate::abi::{EXIT_PORT, FRAME_PORT, SERIAL_PORT};
use vstd::prelude::*;

use crate::text::text;

verus! {

/// One byte written to one port.
#[derive(Debug, Clone, Copy, PartialEq, Eq, Structural)]
pub struct PortWrite {
    pub port: u16,
    pub value: u8,
}

/// The port writes of a guest, in the order in which they reach the hardware.
pub struct Ports {
    pub log: Vec<PortWrite>,
}

impl View for Ports {
    type V = Seq<PortWrite>;

    open spec fn view(&self) -> Seq<PortWrite> {
        self.log@
    }
}

impl Ports {
    /// No write so far.
    pub fn new() -> (ports: Ports)
        ensures
            ports@ == Seq::<PortWrite>::empty(),
    {
        Ports { log: Vec::new() }
    }
}

/// The port writes that send `bytes` over the serial line.
pub open spec fn serial_writes(bytes: Seq<u8>) -> Seq<PortWrite> {
    Seq::new(bytes.len(), |i: int| PortWrite { port: SERIAL_PORT, value: bytes[i] })
}

/// Writes one byte to a port.
pub fn outb(ports: &mut Ports, port: u16, value: u8)
    ensures
        final(ports)@ == old(ports)@.push(PortWrite { port, value }),
{
    ports.log.push(PortWrite { port, value });
}

/// The serial line.
#[derive(Debug, Clone, Copy)]
pub struct Serial;

impl Serial {
    /// Sends a string, byte by byte.
    pub fn write_str(&mut self, ports: &mut Ports, s: &str)
        ensures
            final(ports)@ == old(ports)@ + serial_writes(text(s)),
    {
        self.write_bytes(ports, s.as_bytes());
    }

    /// Sends bytes.
    pub fn write_bytes(&mut self, ports: &mut Ports, bytes: &[u8])
        ensures
            final(ports)@ == old(ports)@ + serial_writes(bytes@),
    {
        let mut i: usize = 0;
        proof {
            assert(ports@ + serial_writes(bytes@.take(0)) =~= ports@);
        }
        while i < bytes.len()
            invariant
                i <= bytes@.len(),
                ports@ == old(ports)@ + serial_writes(bytes@.take(i as int)),
            decreases bytes@.len() - i,
        {
            outb(ports, SERIAL_PORT, bytes[i]);
            i = i + 1;
            proof {
                assert(ports@ =~= old(ports)@ + serial_writes(bytes@.take(i as int)));
            }
        }
        proof {
            assert(bytes@.take(i as int) =~= bytes@);
        }
    }
}

/// Asks the host to end the machine with `code`. The guest halts after this.
pub fn exit(ports: &mut Ports, code: u8)
    ensures
        final(ports)@ == old(ports)@.push(PortWrite { port: EXIT_PORT, value: code }),
{
    outb(ports, EXIT_PORT, code);
}

/// Signals the end of a frame; the host parks the guest until the frame is on
/// screen and the mailbox is filled anew.
pub fn frame_done(ports: &mut Ports)
    ensures
        final(ports)@ == old(ports)@.push(PortWrite { port: FRAME_PORT, value: 0 }),
{
    outb(ports, FRAME_PORT, 0);
}

/// The port writes of a guest that panics.
pub open spec fn panic_writes(info: &str) -> Seq<PortWrite> {
    serial_writes(text("panic: ") + text(info) + seq![10u8]).push(
        PortWrite { port: EXIT_PORT, value: 1 },
    )
}

/// What a panicking guest does: one line with the message, then exit code 1.
pub fn panic(ports: &mut Ports, info: &str)
    ensures
        final(ports)@ == (old(ports)@ + serial_writes(text("panic: ") + text(info) + seq![10u8])).push(
            PortWrite { port: EXIT_PORT, value: 1 },
        ),
        final(ports)@ == old(ports)@ + panic_writes(info),
{
    let mut serial: Serial = Serial;
    serial.write_str(ports, "panic: ");
    serial.write_str(ports, info);
    outb(ports, SERIAL_PORT, 10);
    proof {
        assert(ports@ =~= old(ports)@ + serial_writes(
            text("panic: ") + text(info) + seq![10u8],
        ));
    }
    exit(ports, 1);
    proof {
        assert(ports@ =~= old(ports)@ + panic_writes(info));
    }
}

/// Sending bytes is one write to the serial port for each byte, in order.
pub proof fn law_serial_writes(bytes: Seq<u8>, i: int)
    ensures
        serial_writes(bytes).len() == bytes.len(),
        0 <= i < bytes.len() ==> serial_writes(bytes)[i].port == 0x3f8 && serial_writes(
            bytes,
        )[i].value == bytes[i],
{
}

/// The log of a guest's ports is all there is to see of them.
pub proof fn law_ports_seen(ports: Ports)
    ensures
        ports@ == ports.log@,
{
}

} // verus!
