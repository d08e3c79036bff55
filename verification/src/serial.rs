//! The COM serial port used for kernel logging.

use vstd::prelude::*;

verus! {

/// Severity of a log line.
#[derive(Debug, Clone, Copy, PartialEq, Eq, Structural)]
pub enum LogLevel {
    Info,
    Warn,
    Error,
}

impl LogLevel {
    /// The tag that prefixes a log line of this severity.
    pub fn label(self) -> (s: &'static str)
        ensures
            s@ == match self {
                LogLevel::Info => "INFO"@,
                LogLevel::Warn => "WARN"@,
                LogLevel::Error => "ERROR"@,
            },
    {
        match self {
            LogLevel::Info => "INFO",
            LogLevel::Warn => "WARN",
            LogLevel::Error => "ERROR",
        }
    }
}

/// A serial port, named by its base I/O port.
#[derive(Debug, Clone, Copy, PartialEq, Eq)]
pub struct Serial {
    port: u16,
}

impl Serial {
    /// The serial port whose registers start at I/O port `port`.
    pub fn new(port: u16) -> (s: Self)
        ensures
            s.port_spec() == port,
    {
        Serial { port }
    }

    /// The base I/O port.
    pub closed spec fn port_spec(&self) -> u16 {
        self.port
    }

    /// The base I/O port.
    pub fn port(&self) -> (p: u16)
        ensures
            p == self.port_spec(),
    {
        self.port
    }

    /// The register writes, in order, that set the UART up (38400 baud, 8N1,
    /// FIFO on, loopback mode) and send the loopback test byte.
    pub fn init_writes(&self) -> (w: Vec<(u16, u8)>)
        requires
            self.port_spec() + 4 <= u16::MAX,
        ensures
            w@ == init_writes_spec(self.port_spec()),
    {
        let p = self.port;
        let mut w: Vec<(u16, u8)> = Vec::new();
        w.push((p + 1, 0x00));
        w.push((p + 3, 0x80));
        w.push((p, 0x03));
        w.push((p + 1, 0x00));
        w.push((p + 3, 0x03));
        w.push((p + 2, 0xC7));
        w.push((p + 4, 0x0B));
        w.push((p + 4, 0x1E));
        w.push((p, LOOPBACK_TEST_BYTE));
        proof {
            assert(w@ =~= init_writes_spec(p));
        }
        w
    }

    /// Decides the set-up from the byte read back from the data register in
    /// loopback mode: when it is the test byte, the write that switches the
    /// UART to normal operation; otherwise the error `"test"`.
    pub fn loopback_result(&self, read: u8) -> (r: Result<(u16, u8), &'static str>)
        requires
            self.port_spec() + 4 <= u16::MAX,
        ensures
            match r {
                Ok(write) => read == LOOPBACK_TEST_BYTE && write == (
                    (self.port_spec() + 4) as u16,
                    0x0Fu8,
                ),
                Err(e) => read != LOOPBACK_TEST_BYTE && e@ == "test"@,
            },
    {
        if read != LOOPBACK_TEST_BYTE {
            return Err("test");
        }
        Ok((self.port + 4, 0x0F))
    }
}

/// The byte sent and expected back while the UART is in loopback mode.
pub const LOOPBACK_TEST_BYTE: u8 = 0xAE;

/// The set-up writes for a UART based at `port`, as (I/O port, value) pairs.
pub open spec fn init_writes_spec(port: u16) -> Seq<(u16, u8)> {
    seq![
        ((port + 1) as u16, 0x00u8),
        ((port + 3) as u16, 0x80u8),
        (port, 0x03u8),
        ((port + 1) as u16, 0x00u8),
        ((port + 3) as u16, 0x03u8),
        ((port + 2) as u16, 0xC7u8),
        ((port + 4) as u16, 0x0Bu8),
        ((port + 4) as u16, 0x1Eu8),
        (port, LOOPBACK_TEST_BYTE),
    ]
}

/// What the set-up writes do to a 16550 UART based at `port`: interrupts
/// off (0 to `port + 1`), then with the divisor latch open (bit 7 of the
/// line control register at `port + 3`) a divisor of 3, low byte at `port`
/// and high byte at `port + 1`, so 115200 / 3 = 38400 baud; then the line
/// control register set to 8 data bits, no parity, one stop bit with the
/// latch closed; the FIFO enabled and both queues cleared with a 14-byte
/// threshold (`port + 2`); the modem control register at `port + 4` with
/// DTR, RTS and OUT2, then switched into loopback; and last the test byte
/// sent to the data register.
pub proof fn uart_setup_writes(port: u16)
    requires
        port + 4 <= u16::MAX,
    ensures
        ({
            let w = init_writes_spec(port);
            &&& w.len() == 9
            &&& w[0] == ((port + 1) as u16, 0u8)
            &&& w[1].0 == port + 3 && w[1].1 & 0x80 != 0
            &&& w[2].0 == port && w[3].0 == port + 1
            &&& 115200int / (w[2].1 + 256 * w[3].1) == 38400
            &&& w[4].0 == port + 3 && w[4].1 & 0x80 == 0 && w[4].1 & 0x03 == 0x03 && w[4].1 & 0x04 == 0
                && w[4].1 & 0x08 == 0
            &&& w[5].0 == port + 2 && w[5].1 & 0x07 == 0x07 && w[5].1 & 0xC0 == 0xC0
            &&& w[6].0 == port + 4 && w[6].1 & 0x0B == 0x0B && w[6].1 & 0x10 == 0
            &&& w[7].0 == port + 4 && w[7].1 & 0x10 != 0
            &&& w[8] == (port, 0xAEu8)
        }),
{
    assert(0x80u8 & 0x80 != 0 && 0x03u8 & 0x80 == 0 && 0x03u8 & 0x03 == 0x03 && 0x03u8 & 0x04 == 0 && 0x03u8
        & 0x08 == 0 && 0xC7u8 & 0x07 == 0x07 && 0xC7u8 & 0xC0 == 0xC0 && 0x0Bu8 & 0x0B == 0x0B && 0x0Bu8 & 0x10
        == 0 && 0x1Eu8 & 0x10 != 0) by (bit_vector);
}

} // verus!
