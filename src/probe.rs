use vstd::prelude::*;
use vstd::utf8::valid_utf8;

verus! {

/// Line speed of the identification probe, in baud (8 data bits, no parity,
/// one stop bit).
pub const BAUD_RATE: u32 = 9600;

/// How long the probe waits for a reply, in milliseconds.
pub const TIMEOUT_MS: u64 = 1000;

/// The byte written to a port to ask the hardware to identify itself.
pub const PROBE_BYTE: u8 = 0;

/// The most reply bytes that are read from a port.
pub const REPLY_CAPACITY: usize = 32;

/// Hardware that the identification probe recognises.
#[derive(PartialEq, Eq, Structural, Clone, Copy, Debug)]
pub enum Device {
    KthUsb,
}

/// "KTH-USB"
pub open spec fn kth_usb_name() -> Seq<char> {
    seq!['K', 'T', 'H', '-', 'U', 'S', 'B']
}

impl Device {
    /// The name under which the hardware is shown.
    pub fn name(&self) -> (r: String)
        ensures
            r@ == kth_usb_name(),
    {
        let s = "KTH-USB".to_string();
        proof {
            reveal_strlit("KTH-USB");
        }
        assert(s@ =~= kth_usb_name());
        s
    }
}

/// A recognised device and the port it answered on.
pub struct AvailableDevice {
    pub device: Device,
    pub port: String,
}

impl AvailableDevice {
    pub fn new(device: Device, port: String) -> (r: Self)
        ensures
            r.device == device,
            r.port == port,
    {
        Self { device, port }
    }
}

/// The reply of a KTH-USB: the bytes of "ElmorLabs KTH-USB" and a NUL.
pub open spec fn kth_usb_reply() -> Seq<u8> {
    seq![69u8, 108, 109, 111, 114, 76, 97, 98, 115, 32, 75, 84, 72, 45, 85, 83, 66, 0]
}

/// What a reply to the probe says about the hardware on a port.
#[derive(PartialEq, Eq, Structural, Clone, Copy, Debug)]
pub enum Identification {
    /// The reply names known hardware.
    Known(Device),
    /// The reply is not UTF-8 text; the port is passed over.
    NotText,
    /// The reply is text that names no known hardware.
    Unknown,
}

/// Relies on std::str::from_utf8, which accepts exactly the well-formed UTF-8
/// byte strings.
#[verifier::external_body]
fn is_utf8(bytes: &[u8]) -> (r: bool)
    ensures
        r == valid_utf8(bytes@),
{
    std::str::from_utf8(bytes).is_ok()
}

/// Classifies the reply read from a port against the known hardware.
pub fn identify(reply: &[u8]) -> (r: Identification)
    ensures
        reply@ == kth_usb_reply() ==> r == Identification::Known(Device::KthUsb),
        reply@ != kth_usb_reply() && valid_utf8(reply@) ==> r == Identification::Unknown,
        reply@ != kth_usb_reply() && !valid_utf8(reply@) ==> r == Identification::NotText,
{
    let expected: Vec<u8> = vec![69u8, 108, 109, 111, 114, 76, 97, 98, 115, 32, 75, 84, 72, 45, 85, 83, 66, 0];
    assert(expected@ =~= kth_usb_reply());
    let mut same = reply.len() == expected.len();
    let mut i: usize = 0;
    while same && i < reply.len()
        invariant
            expected@ == kth_usb_reply(),
            i <= reply.len(),
            same ==> reply.len() == expected.len(),
            same ==> reply@.subrange(0, i as int) == expected@.subrange(0, i as int),
            !same ==> reply@ != kth_usb_reply(),
        decreases reply.len() - i,
    {
        if reply[i] != expected[i] {
            same = false;
        } else {
            assert(reply@.subrange(0, i + 1) =~= reply@.subrange(0, i as int).push(reply@[i as int]));
            assert(expected@.subrange(0, i + 1) =~= expected@.subrange(0, i as int).push(
                expected@[i as int],
            ));
        }
        i = i + 1;
    }
    if same {
        assert(reply@ =~= reply@.subrange(0, i as int));
        assert(expected@ =~= expected@.subrange(0, i as int));
        Identification::Known(Device::KthUsb)
    } else if is_utf8(reply) {
        Identification::Unknown
    } else {
        Identification::NotText
    }
}

/// What one read from a probed port reported.
#[derive(PartialEq, Eq, Structural, Clone, Copy, Debug)]
pub enum ReadEvent {
    /// This many bytes arrived.
    Data(usize),
    /// The read failed (a timeout among others).
    Failed,
}

/// The number of reply bytes held after a read, and whether to read again:
/// reading stops on an empty read, on a failure, or once the reply buffer is full.
pub fn next_count(count: usize, event: ReadEvent) -> (r: (usize, bool))
    requires
        count <= REPLY_CAPACITY,
        event matches ReadEvent::Data(n) ==> n <= REPLY_CAPACITY - count,
    ensures
        r.0 <= REPLY_CAPACITY,
        match event {
            ReadEvent::Data(n) => r == ((count + n) as usize, n > 0 && count + n < REPLY_CAPACITY),
            ReadEvent::Failed => r == (count, false),
        },
{
    match event {
        ReadEvent::Data(n) => (count + n, n > 0 && count + n < REPLY_CAPACITY),
        ReadEvent::Failed => (count, false),
    }
}

} // verus!
